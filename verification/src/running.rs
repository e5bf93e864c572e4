//! Which applications are running, as far as a cache directory's name tells.
use vstd::prelude::*;
use crate::text::{chars_of, has_substring, lowercase, seq_contains, to_lowercase};

verus! {

/// The characters after the final '.' of `d`; all of `d` when it has none.
pub open spec fn last_segment(d: Seq<char>) -> Seq<char>
    decreases d.len(),
{
    if d.len() == 0 {
        d
    } else if d.last() == '.' {
        Seq::empty()
    } else {
        last_segment(d.drop_last()).push(d.last())
    }
}

/// The token a directory name is matched by: its last dot-separated segment,
/// lowercased ("com.google.Chrome" gives "chrome").
pub open spec fn match_token(dir_name: Seq<char>) -> Seq<char> {
    lowercase(last_segment(dir_name))
}

/// A directory name belongs to a running application when its token is at
/// least 3 bytes long in UTF-8 and occurs in one of the process names.
pub open spec fn name_matches(names: Set<Seq<char>>, dir_name: Seq<char>) -> bool {
    let token = match_token(dir_name);
    &&& vstd::utf8::encode_utf8(token).len() >= 3
    &&& exists|n: Seq<char>| names.contains(n) && has_substring(n, token)
}

/// Lowercase running-process names, snapshotted once per scan; each name is
/// held once.
///
/// Matching a Caches/Logs top-level dir (usually a bundle id like
/// `com.google.Chrome`) against process names is a heuristic: the last
/// dot-separated segment ("Chrome") is looked for as a substring of any
/// running process name. Good enough to avoid deleting an active app's
/// cache; not a guarantee for apps with process names unrelated to their
/// bundle id tail.
pub struct RunningApps {
    names: Vec<String>,
}

impl View for RunningApps {
    type V = Set<Seq<char>>;

    closed spec fn view(&self) -> Set<Seq<char>> {
        name_set(self.names@)
    }
}

/// `d.subrange(start, len)` is the last segment when `start` follows the last '.'.
proof fn lemma_last_segment_from(d: Seq<char>, start: int)
    requires
        0 <= start <= d.len(),
        start == 0 || d[start - 1] == '.',
        forall|j: int| start <= j < d.len() ==> d[j] != '.',
    ensures
        last_segment(d) == d.subrange(start, d.len() as int),
    decreases d.len(),
{
    if d.len() == 0 {
    } else if start == d.len() {
    } else {
        let e = d.drop_last();
        lemma_last_segment_from(e, start);
        assert(d.subrange(start, d.len() as int) =~= e.subrange(start, e.len() as int).push(d.last()));
    }
}

/// The names held in `names`, as a set.
pub open spec fn name_set(names: Seq<String>) -> Set<Seq<char>> {
    Set::new(|n: Seq<char>| exists|a: int| 0 <= a < names.len() && names[a]@ == n)
}

/// The lowercase forms of the first `i` raw process names, as a set.
pub open spec fn lowered_names(raw: Seq<String>, i: int) -> Set<Seq<char>> {
    Set::new(|n: Seq<char>| exists|k: int| 0 <= k < i && lowercase(raw[k]@) == n)
}

/// Whether `names` holds a name with the characters of `s`.
fn holds_name(names: &Vec<String>, s: &String) -> (r: bool)
    ensures
        r == name_set(names@).contains(s@),
{
    let mut j: usize = 0;
    while j < names.len()
        invariant
            j <= names@.len(),
            forall|a: int| 0 <= a < j ==> names@[a]@ != s@,
        decreases names@.len() - j,
    {
        if names[j] == *s {
            assert(name_set(names@).contains(s@)) by {
                assert(names@[j as int]@ == s@);
            }
            return true;
        }
        j = j + 1;
    }
    false
}

/// Whether `s` takes at least 3 bytes in UTF-8.
fn utf8_at_least_3_bytes(s: &str) -> (r: bool)
    ensures
        r == (vstd::utf8::encode_utf8(s@).len() >= 3),
{
    let c = chars_of(s);
    let mut i: usize = c.len();
    let mut acc: usize = 0;
    assert(c@.skip(i as int) =~= Seq::<char>::empty());
    while i > 0 && acc < 3
        invariant
            i <= c@.len(),
            c@ == s@,
            acc <= 3,
            acc < 3 ==> acc == vstd::utf8::encode_utf8(c@.skip(i as int)).len(),
            acc == 3 ==> vstd::utf8::encode_utf8(c@.skip(i as int)).len() >= 3,
        decreases i,
    {
        let ch = c[i - 1];
        let v = ch as u32;
        proof {
            vstd::utf8::char_is_scalar(ch);
            assert(c@.skip(i - 1).drop_first() =~= c@.skip(i as int));
            assert(c@.skip(i - 1)[0] == ch);
        }
        let w: usize = if v <= 0x7F {
            1
        } else if v <= 0x7FF {
            2
        } else if v <= 0xFFFF {
            3
        } else {
            4
        };
        assert(w == vstd::utf8::encode_scalar(v).len());
        acc = if acc + w >= 3 { 3 } else { acc + w };
        i = i - 1;
    }
    proof {
        if acc < 3 {
            assert(c@.skip(0) =~= c@);
        } else {
            lemma_encode_utf8_suffix_len(c@, i as int);
        }
    }
    acc >= 3
}

/// A suffix encodes to no more bytes than the whole.
proof fn lemma_encode_utf8_suffix_len(s: Seq<char>, i: int)
    requires
        0 <= i <= s.len(),
    ensures
        vstd::utf8::encode_utf8(s.skip(i)).len() <= vstd::utf8::encode_utf8(s).len(),
    decreases i,
{
    if i > 0 {
        lemma_encode_utf8_suffix_len(s.drop_first(), i - 1);
        assert(s.drop_first().skip(i - 1) =~= s.skip(i));
    } else {
        assert(s.skip(0) =~= s);
    }
}

/// The token of a directory name is the whole of its last dot-separated
/// segment, lowercased: for the position `k` that follows the last '.' (or
/// 0 when there is none), a name matches exactly when the lowercase of
/// everything from `k` on takes at least 3 UTF-8 bytes and occurs in some
/// process name.
pub proof fn lemma_match_uses_whole_last_segment(names: Set<Seq<char>>, d: Seq<char>, k: int)
    requires
        0 <= k <= d.len(),
        k == 0 || d[k - 1] == '.',
        forall|j: int| k <= j < d.len() ==> d[j] != '.',
    ensures
        match_token(d) == lowercase(d.subrange(k, d.len() as int)),
        name_matches(names, d) <==> (vstd::utf8::encode_utf8(lowercase(d.subrange(k, d.len() as int))).len() >= 3
            && exists|n: Seq<char>| names.contains(n) && has_substring(n, lowercase(d.subrange(k, d.len() as int)))),
{
    lemma_last_segment_from(d, k);
}

/// The snapshot holds exactly the names given: a name is held iff one of the
/// given ones has its characters; from raw process names, iff it is the
/// lowercase form of one of them.
pub proof fn lemma_held_names(names: Seq<String>, raw: Seq<String>, n: Seq<char>)
    ensures
        name_set(names).contains(n) <==> exists|i: int| 0 <= i < names.len() && names[i]@ == n,
        lowered_names(raw, raw.len() as int).contains(n) <==> exists|i: int| 0 <= i < raw.len() && lowercase(raw[i]@) == n,
{
}

/// Every name has exactly one such position: the one after its last '.'.
pub proof fn lemma_last_segment_start_unique(d: Seq<char>, k1: int, k2: int)
    requires
        0 <= k1 <= d.len(),
        k1 == 0 || d[k1 - 1] == '.',
        forall|j: int| k1 <= j < d.len() ==> d[j] != '.',
        0 <= k2 <= d.len(),
        k2 == 0 || d[k2 - 1] == '.',
        forall|j: int| k2 <= j < d.len() ==> d[j] != '.',
    ensures
        k1 == k2,
{
    if k1 < k2 {
        assert(d[k2 - 1] != '.');
    } else if k2 < k1 {
        assert(d[k1 - 1] != '.');
    }
}

impl RunningApps {
    #[verifier::type_invariant]
    closed spec fn names_distinct(self) -> bool {
        forall|i: int, j: int|
            0 <= i < j < self.names@.len() ==> self.names@[i]@ != self.names@[j]@
    }

    /// Builds the snapshot from process names that are already lowercase;
    /// a name that occurs twice is held once.
    pub fn from_names(given: Vec<String>) -> (r: Self)
        ensures
            r@ == name_set(given@),
    {
        let mut names: Vec<String> = Vec::new();
        let mut i: usize = 0;
        assert(name_set(names@) =~= name_set(given@.take(0)));
        while i < given.len()
            invariant
                i <= given@.len(),
                forall|a: int, b: int| 0 <= a < b < names@.len() ==> names@[a]@ != names@[b]@,
                name_set(names@) == name_set(given@.take(i as int)),
            decreases given@.len() - i,
        {
            let name = given[i].clone();
            let seen = holds_name(&names, &name);
            let ghost old_names = names@;
            if !seen {
                names.push(name);
                assert(name_set(names@) =~= name_set(old_names).insert(name@)) by {
                    assert(names@[old_names.len() as int]@ == name@);
                    assert forall|n: Seq<char>| name_set(old_names).contains(n) implies name_set(names@).contains(n) by {
                        let a = choose|a: int| 0 <= a < old_names.len() && old_names[a]@ == n;
                        assert(names@[a] == old_names[a]);
                    }
                    assert forall|n: Seq<char>| name_set(names@).contains(n) implies name_set(old_names).insert(name@).contains(n) by {
                        let a = choose|a: int| 0 <= a < names@.len() && names@[a]@ == n;
                        if a < old_names.len() {
                            assert(names@[a] == old_names[a]);
                        }
                    }
                }
            } else {
                assert(name_set(names@) =~= name_set(old_names).insert(name@));
            }
            assert(name_set(given@.take(i + 1)) =~= name_set(given@.take(i as int)).insert(name@)) by {
                let t = given@.take(i + 1);
                assert(t[i as int]@ == name@);
                assert forall|n: Seq<char>| name_set(t).contains(n) implies name_set(given@.take(i as int)).insert(name@).contains(n) by {
                    let k = choose|k: int| 0 <= k < t.len() && t[k]@ == n;
                    if k < i {
                        assert(given@.take(i as int)[k] == t[k]);
                    }
                }
                assert forall|n: Seq<char>| name_set(given@.take(i as int)).contains(n) implies name_set(t).contains(n) by {
                    let k = choose|k: int| 0 <= k < i && given@.take(i as int)[k]@ == n;
                    assert(given@.take(i as int)[k] == t[k]);
                }
            }
            i = i + 1;
        }
        assert(given@.take(given@.len() as int) =~= given@);
        RunningApps { names }
    }

    /// Builds the snapshot from the raw process names: each is lowercased,
    /// and a name that occurs twice is held once.
    pub fn from_process_names(raw: Vec<String>) -> (r: Self)
        ensures
            r@ == lowered_names(raw@, raw@.len() as int),
    {
        let mut lowered: Vec<String> = Vec::new();
        let mut i: usize = 0;
        while i < raw.len()
            invariant
                i <= raw@.len(),
                lowered@.len() == i,
                forall|k: int| 0 <= k < i ==> (#[trigger] lowered@[k])@ == lowercase(raw@[k]@),
            decreases raw@.len() - i,
        {
            lowered.push(to_lowercase(raw[i].as_str()));
            i = i + 1;
        }
        let r = RunningApps::from_names(lowered);
        assert(name_set(lowered@) =~= lowered_names(raw@, raw@.len() as int)) by {
            assert forall|n: Seq<char>| name_set(lowered@).contains(n) implies lowered_names(raw@, raw@.len() as int).contains(n) by {
                let a = choose|a: int| 0 <= a < lowered@.len() && lowered@[a]@ == n;
            }
            assert forall|n: Seq<char>| lowered_names(raw@, raw@.len() as int).contains(n) implies name_set(lowered@).contains(n) by {
                let k = choose|k: int| 0 <= k < raw@.len() && lowercase(raw@[k]@) == n;
                assert(lowered@[k]@ == n);
            }
        }
        r
    }

    /// Whether `token` marks a running application: it is at least 3 bytes
    /// long in UTF-8 and occurs in some process name.
    pub fn matches_token(&self, token: &str) -> (r: bool)
        ensures
            r == (vstd::utf8::encode_utf8(token@).len() >= 3 && exists|n: Seq<char>| self@.contains(n) && has_substring(n, token@)),
    {
        if !utf8_at_least_3_bytes(token) {
            return false;
        }
        let t = chars_of(token);
        let mut i: usize = 0;
        while i < self.names.len()
            invariant
                i <= self.names@.len(),
                t@ == token@,
                vstd::utf8::encode_utf8(token@).len() >= 3,
                forall|k: int| 0 <= k < i ==> !has_substring(#[trigger] self.names@[k]@, t@),
            decreases self.names@.len() - i,
        {
            let name = chars_of(self.names[i].as_str());
            if seq_contains(&name, &t) {
                assert(self@.contains(self.names@[i as int]@));
                assert(has_substring(self.names@[i as int]@, token@));
                return true;
            }
            i = i + 1;
        }
        assert forall|m: Seq<char>| self@.contains(m) implies !has_substring(m, t@) by {
            let k = choose|k: int| 0 <= k < self.names@.len() && self.names@[k]@ == m;
        }
        false
    }

    /// Whether a Caches/Logs directory named `dir_name` belongs to a running
    /// application: the segment after its last '.', lowercased, is at least
    /// 3 bytes long and occurs in some process name.
    pub fn matches(&self, dir_name: &str) -> (r: bool)
        ensures
            r == name_matches(self@, dir_name@),
    {
        let d = chars_of(dir_name);
        let n = d.len();
        let mut start: usize = n;
        while start > 0 && d[start - 1] != '.'
            invariant
                start <= n,
                n == d@.len(),
                forall|j: int| start <= j < n ==> d@[j] != '.',
            decreases start,
        {
            start = start - 1;
        }
        proof {
            lemma_last_segment_from(d@, start as int);
        }
        let segment = dir_name.substring_char(start, n);
        let token = to_lowercase(segment);
        self.matches_token(token.as_str())
    }
}

} // verus!
