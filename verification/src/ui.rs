//! Sizes as the user reads them.
use vstd::prelude::*;
use crate::text::{decimal, u64_to_decimal};
use crate::scan::CategoryEntry;
use crate::mem::MemStats;

verus! {

/// `1024^u`.
pub open spec fn pow1024(u: nat) -> nat
    decreases u,
{
    if u == 0 {
        1
    } else {
        1024 * pow1024((u - 1) as nat)
    }
}

/// `2^k`.
pub open spec fn two_pow(k: nat) -> nat
    decreases k,
{
    if k == 0 {
        1
    } else {
        2 * two_pow((k - 1) as nat)
    }
}

/// The number of binary digits of `b` (0 for 0).
pub open spec fn bit_length(b: nat) -> nat
    decreases b,
{
    if b == 0 {
        0
    } else {
        1 + bit_length(b / 2)
    }
}

/// The unit a byte count is shown in: 0 = B, 1 = KB, 2 = MB, 3 = GB, 4 = TB;
/// the largest one that the count reaches, TB at most.
pub open spec fn size_unit(b: nat) -> nat {
    if b >= pow1024(4) {
        4
    } else if b >= pow1024(3) {
        3
    } else if b >= pow1024(2) {
        2
    } else if b >= pow1024(1) {
        1
    } else {
        0
    }
}

pub open spec fn unit_name(u: nat) -> Seq<char> {
    if u == 0 {
        "B"@
    } else if u == 1 {
        "KB"@
    } else if u == 2 {
        "MB"@
    } else if u == 3 {
        "GB"@
    } else {
        "TB"@
    }
}

/// `num / den` rounded to the nearest integer, ties to the even one.
pub open spec fn round_half_even(num: nat, den: nat) -> nat {
    let q = num / den;
    let r = num % den;
    if 2 * r > den || (2 * r == den && q % 2 == 1) {
        q + 1
    } else {
        q
    }
}

/// The value of `b as f64`: `b` rounded to 53 significant bits, ties to even.
pub open spec fn f64_value(b: nat) -> nat {
    if bit_length(b) <= 53 {
        b
    } else {
        let k = (bit_length(b) - 53) as nat;
        round_half_even(b, two_pow(k)) * two_pow(k)
    }
}

/// Tenths of the unit, as `{:.1}` rounds the exact quotient of the float.
pub open spec fn size_tenths(b: nat) -> nat {
    round_half_even(10 * f64_value(b), pow1024(size_unit(b)))
}

/// `human_size`'s text: a count under 1 KB in whole bytes ("512 B"), anything
/// larger with one decimal in the largest unit it reaches ("1.5 KB").
pub open spec fn human_size_text(b: nat) -> Seq<char> {
    let u = size_unit(b);
    if u == 0 {
        decimal(b) + " B"@
    } else {
        let t = size_tenths(b);
        decimal(t / 10) + "."@ + decimal(t % 10) + " "@ + unit_name(u)
    }
}

proof fn lemma_two_pow_pos(k: nat)
    ensures
        two_pow(k) >= 1,
    decreases k,
{
    if k > 0 {
        lemma_two_pow_pos((k - 1) as nat);
    }
}

proof fn lemma_two_pow_mono(a: nat, b: nat)
    requires
        a <= b,
    ensures
        two_pow(a) <= two_pow(b),
    decreases b,
{
    if a < b {
        lemma_two_pow_mono(a, (b - 1) as nat);
        lemma_two_pow_pos((b - 1) as nat);
    }
}

/// A positive number is at least 2 to the power of its bit length minus one,
/// and below 2 to the power of its bit length.
proof fn lemma_bit_length_bounds(b: nat)
    ensures
        b < two_pow(bit_length(b)),
        b > 0 ==> two_pow((bit_length(b) - 1) as nat) <= b,
    decreases b,
{
    if b > 0 {
        lemma_bit_length_bounds(b / 2);
        if b / 2 > 0 {
            assert(two_pow((bit_length(b) - 1) as nat) == 2 * two_pow((bit_length(b / 2) - 1) as nat));
        }
    }
}

proof fn lemma_bit_length_le(b: nat, n: nat)
    requires
        b < two_pow(n),
    ensures
        bit_length(b) <= n,
    decreases b,
{
    if b > 0 {
        lemma_bit_length_bounds(b);
        if bit_length(b) > n {
            lemma_two_pow_mono(n, (bit_length(b) - 1) as nat);
        }
    }
}

proof fn lemma_two_pow_64()
    ensures
        two_pow(11) == 2048,
        two_pow(64) == 0x1_0000_0000_0000_0000,
{
    reveal_with_fuel(two_pow, 65);
}

proof fn lemma_pow1024_values()
    ensures
        pow1024(1) == 1024,
        pow1024(2) == 1048576,
        pow1024(3) == 1073741824,
        pow1024(4) == 1099511627776,
{
    reveal_with_fuel(pow1024, 5);
}

/// Below 1024 bytes the size is shown exactly, in bytes; from 1024 on it is
/// shown in the largest unit (KB, MB, GB, TB, at most TB) that the count
/// reaches, and, for counts a `f64` holds exactly, as the count rounded to
/// the nearest tenth of that unit (within half a tenth).
pub proof fn lemma_human_size_rounds(b: nat)
    ensures
        b < 1024 ==> human_size_text(b) == decimal(b) + " B"@,
        1 <= size_unit(b) <= 3 ==> pow1024(size_unit(b)) <= b < pow1024(size_unit(b) + 1),
        size_unit(b) == 4 ==> pow1024(4) <= b,
        size_unit(b) == 0 ==> b < 1024,
        b >= 1024 && b < 0x20_0000_0000_0000 ==> ({
            let d = pow1024(size_unit(b)) as int;
            let t = size_tenths(b) as int;
            &&& 2 * (t * d - 10 * b) <= d
            &&& 2 * (10 * b - t * d) <= d
        }),
{
    lemma_pow1024_values();
    assert(pow1024(5) == 1024 * pow1024(4));
    if b >= 1024 && b < 0x20_0000_0000_0000 {
        assert(two_pow(53) == 0x20_0000_0000_0000) by {
            reveal_with_fuel(two_pow, 54);
        }
        lemma_bit_length_le(b, 53);
        assert(f64_value(b) == b);
        let d = pow1024(size_unit(b)) as int;
        let n = 10 * b as int;
        let q = n / d;
        let r = n % d;
        assert(d > 0);
        vstd::arithmetic::div_mod::lemma_fundamental_div_mod(n, d);
        assert(0 <= r < d) by {
            vstd::arithmetic::div_mod::lemma_mod_bound(n, d);
        }
        let t = size_tenths(b) as int;
        if 2 * r > d || (2 * r == d && q % 2 == 1) {
            assert(t == q + 1);
            assert(t * d == q * d + d) by (nonlinear_arith)
                requires
                    t == q + 1,
            ;
        } else {
            assert(t == q);
        }
    }
}

fn round_half_even_exec(num: u128, den: u128) -> (r: u128)
    requires
        0 < den <= 0x1_0000_0000_0000_0000,
        num < 0x10_0000_0000_0000_0000,
    ensures
        r == round_half_even(num as nat, den as nat),
        r <= num / den + 1,
{
    let q = num / den;
    let r = num % den;
    if 2 * r > den || (2 * r == den && q % 2 == 1) {
        q + 1
    } else {
        q
    }
}

/// `b as f64`, as an exact integer.
fn f64_value_exec(b: u64) -> (r: u128)
    ensures
        r == f64_value(b as nat),
        r <= 0x1_0000_0000_0000_0800,
{
    let mut x: u64 = b;
    let mut len: u64 = 0;
    assert(x as nat * two_pow(0) <= b) by {
        let p = two_pow(0);
        assert(p == 1);
        assert(x as nat * p == x as nat) by (nonlinear_arith)
            requires
                p == 1,
        ;
    }
    while x > 0
        invariant
            len + bit_length(x as nat) == bit_length(b as nat),
            len <= 64,
            x as nat * two_pow(len as nat) <= b,
        decreases x,
    {
        proof {
            assert(two_pow((len + 1) as nat) == 2 * two_pow(len as nat));
            assert((x / 2) as nat * two_pow((len + 1) as nat) <= x as nat * two_pow(len as nat))
                by (nonlinear_arith)
                requires
                    two_pow((len + 1) as nat) == 2 * two_pow(len as nat),
            ;
            lemma_two_pow_pos(len as nat);
            lemma_bit_length_bounds(b as nat);
            lemma_two_pow_64();
            lemma_bit_length_le(b as nat, 64);
        }
        x = x / 2;
        len = len + 1;
    }
    if len <= 53 {
        return b as u128;
    }
    let k = len - 53;
    let mut p: u128 = 1;
    let mut i: u64 = 0;
    proof {
        lemma_bit_length_bounds(b as nat);
        lemma_two_pow_64();
        lemma_bit_length_le(b as nat, 64);
    }
    while i < k
        invariant
            i <= k,
            k == len - 53,
            len <= 64,
            p == two_pow(i as nat),
        decreases k - i,
    {
        proof {
            lemma_two_pow_mono(i as nat, 11);
            lemma_two_pow_64();
        }
        p = p * 2;
        i = i + 1;
    }
    proof {
        lemma_two_pow_mono(k as nat, 11);
        lemma_two_pow_64();
        lemma_two_pow_pos(k as nat);
    }
    let q = round_half_even_exec(b as u128, p);
    proof {
        assert(q * p <= b as nat / p as nat * p as nat + p as nat) by (nonlinear_arith)
            requires
                q <= b as nat / p as nat + 1,
        ;
        assert(b as nat / p as nat * p as nat <= b as nat) by (nonlinear_arith)
            requires
                p > 0,
        ;
    }
    q * p
}

/// Formats a byte count for display, as in "512 B", "1.5 KB" or "3.0 GB".
pub fn human_size(bytes: u64) -> (r: String)
    ensures
        r@ == human_size_text(bytes as nat),
{
    proof {
        lemma_pow1024_values();
    }
    let unit: u64 = if bytes >= 1099511627776 {
        4
    } else if bytes >= 1073741824 {
        3
    } else if bytes >= 1048576 {
        2
    } else if bytes >= 1024 {
        1
    } else {
        0
    };
    if unit == 0 {
        let mut s = u64_to_decimal(bytes);
        s.append(" B");
        return s;
    }
    let den: u128 = if unit == 4 {
        1099511627776
    } else if unit == 3 {
        1073741824
    } else if unit == 2 {
        1048576
    } else {
        1024
    };
    let value = f64_value_exec(bytes);
    let t = round_half_even_exec(10 * value, den);
    proof {
        let ghost n: int = 10 * value;
        let ghost d: int = den as int;
        assert(n / d <= n / 1024) by (nonlinear_arith)
            requires
                d >= 1024,
                n >= 0,
        ;
        assert(n / 1024 <= 0x10_0000_0000_0000_0000int / 1024) by (nonlinear_arith)
            requires
                n <= 0x10_0000_0000_0000_0000,
        ;
    }
    let whole = (t / 10) as u64;
    let frac = (t % 10) as u64;
    let mut s = u64_to_decimal(whole);
    s.append(".");
    let f = u64_to_decimal(frac);
    s.append(f.as_str());
    s.append(" ");
    let name = if unit == 1 {
        "KB"
    } else if unit == 2 {
        "MB"
    } else if unit == 3 {
        "GB"
    } else {
        "TB"
    };
    s.append(name);
    s
}

/// `n` spaces.
pub open spec fn spaces(n: nat) -> Seq<char> {
    Seq::new(n, |i: int| ' ')
}

/// `s` left-aligned in a field of `w` characters (`{:<w}`).
pub open spec fn pad_end(s: Seq<char>, w: nat) -> Seq<char> {
    if s.len() >= w {
        s
    } else {
        s + spaces((w - s.len()) as nat)
    }
}

/// `s` right-aligned in a field of `w` characters (`{:>w}`).
pub open spec fn pad_start(s: Seq<char>, w: nat) -> Seq<char> {
    if s.len() >= w {
        s
    } else {
        spaces((w - s.len()) as nat) + s
    }
}

/// Padding keeps the text and fills with spaces up to the width: left
/// alignment puts the text first, right alignment last, and neither cuts a
/// longer text.
pub proof fn lemma_padding(s: Seq<char>, w: nat)
    ensures
        pad_end(s, w).len() == if s.len() >= w { s.len() } else { w },
        pad_start(s, w).len() == if s.len() >= w { s.len() } else { w },
        pad_end(s, w).take(s.len() as int) == s,
        pad_start(s, w).skip(pad_start(s, w).len() - s.len()) == s,
        forall|i: int| s.len() <= i < pad_end(s, w).len() ==> pad_end(s, w)[i] == ' ',
        forall|i: int| 0 <= i < pad_start(s, w).len() - s.len() ==> pad_start(s, w)[i] == ' ',
{
    assert(pad_end(s, w).take(s.len() as int) =~= s);
    assert(pad_start(s, w).skip(pad_start(s, w).len() - s.len()) =~= s);
}

/// Appends `n` spaces to `s`.
fn push_spaces(s: &mut String, n: usize)
    ensures
        final(s)@ == old(s)@ + spaces(n as nat),
{
    let mut i: usize = 0;
    while i < n
        invariant
            i <= n,
            s@ == old(s)@ + spaces(i as nat),
        decreases n - i,
    {
        s.append(" ");
        proof {
            reveal_strlit(" ");
            assert(old(s)@ + spaces((i + 1) as nat) =~= old(s)@ + spaces(i as nat) + " "@);
        }
        i = i + 1;
    }
}

/// Appends `t` to `s`, left-aligned in a field of `w` characters.
fn push_padded_end(s: &mut String, t: &str, w: usize)
    ensures
        final(s)@ == old(s)@ + pad_end(t@, w as nat),
{
    let n = t.unicode_len();
    s.append(t);
    if n < w {
        push_spaces(s, w - n);
    }
    assert(final(s)@ =~= old(s)@ + pad_end(t@, w as nat));
}

/// Appends `t` to `s`, right-aligned in a field of `w` characters.
fn push_padded_start(s: &mut String, t: &str, w: usize)
    ensures
        final(s)@ == old(s)@ + pad_start(t@, w as nat),
{
    let n = t.unicode_len();
    if n < w {
        push_spaces(s, w - n);
    }
    s.append(t);
    assert(final(s)@ =~= old(s)@ + pad_start(t@, w as nat));
}

/// The review row of a category: its selection mark, its label in 22
/// columns, its size right-aligned in 10, its item count, and how many of
/// its directories were skipped because their application is running.
pub open spec fn review_line_text(selected: bool, label: Seq<char>, total: u64, count: nat, skipped: nat) -> Seq<char> {
    (if selected { "\u{2611}"@ } else { "\u{2610}"@ }) + " "@ + pad_end(label, 22) + " "@ + pad_start(
        human_size_text(total as nat),
        10,
    ) + "  "@ + decimal(count) + " items"@ + if skipped > 0 {
        "  ("@ + decimal(skipped) + " in use, skipped)"@
    } else {
        Seq::empty()
    }
}

/// A review row is the row with no skipped directories followed, when some
/// directories were skipped, by "  (n in use, skipped)"; the row with none
/// skipped ends with the item count and " items", and starts with the
/// selection mark.
pub proof fn lemma_review_line_skip_note(selected: bool, label: Seq<char>, total: u64, count: nat, skipped: nat)
    ensures
        skipped > 0 ==> review_line_text(selected, label, total, count, skipped) == review_line_text(
            selected,
            label,
            total,
            count,
            0,
        ) + "  ("@ + decimal(skipped) + " in use, skipped)"@,
        skipped == 0 ==> exists|prefix: Seq<char>| review_line_text(selected, label, total, count, skipped)
            == prefix + decimal(count) + " items"@,
        review_line_text(selected, label, total, count, skipped)[0] == if selected { '\u{2611}' } else { '\u{2610}' },
{
    let mark = if selected { "\u{2611}"@ } else { "\u{2610}"@ };
    let prefix = mark + " "@ + pad_end(label, 22) + " "@ + pad_start(human_size_text(total as nat), 10) + "  "@;
    reveal_strlit("\u{2611}");
    reveal_strlit("\u{2610}");
    assert(review_line_text(selected, label, total, count, 0) =~= prefix + decimal(count) + " items"@);
    if skipped > 0 {
        assert(review_line_text(selected, label, total, count, skipped) =~= prefix + decimal(count) + " items"@
            + ("  ("@ + decimal(skipped) + " in use, skipped)"@));
    } else {
        assert(review_line_text(selected, label, total, count, skipped) =~= prefix + decimal(count) + " items"@);
    }
    assert(review_line_text(selected, label, total, count, skipped)[0] == mark[0]);
}

/// The review row shown for a category entry.
pub fn review_line(e: &CategoryEntry) -> (r: String)
    ensures
        r@ == review_line_text(
            e.selected,
            e.category.label_text(),
            e.total_size,
            e.items@.len(),
            e.skipped_running as nat,
        ),
{
    let mut s = if e.selected {
        String::from_str("\u{2611}")
    } else {
        String::from_str("\u{2610}")
    };
    s.append(" ");
    push_padded_end(&mut s, e.category.label(), 22);
    s.append(" ");
    let size = human_size(e.total_size);
    push_padded_start(&mut s, size.as_str(), 10);
    s.append("  ");
    let count = e.file_count_label();
    s.append(count.as_str());
    if e.skipped_running > 0 {
        s.append("  (");
        let n = u64_to_decimal(e.skipped_running as u64);
        s.append(n.as_str());
        s.append(" in use, skipped)");
    }
    proof {
        assert(s@ =~= review_line_text(
            e.selected,
            e.category.label_text(),
            e.total_size,
            e.items@.len(),
            e.skipped_running as nat,
        ));
    }
    s
}

/// The headline of the summary: "Freed " and the size.
pub fn freed_line(freed: u64) -> (r: String)
    ensures
        r@ == "Freed "@ + human_size_text(freed as nat),
{
    let mut s = String::from_str("Freed ");
    let size = human_size(freed);
    s.append(size.as_str());
    s
}

/// A summary row: the category label in 22 columns after two spaces, then
/// the size freed in it.
pub fn summary_line(label: &str, freed: u64) -> (r: String)
    ensures
        r@ == "  "@ + pad_end(label@, 22) + " "@ + human_size_text(freed as nat),
{
    let mut s = String::from_str("  ");
    push_padded_end(&mut s, label, 22);
    s.append(" ");
    let size = human_size(freed);
    s.append(size.as_str());
    assert(s@ =~= "  "@ + pad_end(label@, 22) + " "@ + human_size_text(freed as nat));
    s
}

/// `a / b` with both sizes shown, as on the cleaning gauge.
pub fn sizes_of(a: u64, b: u64) -> (r: String)
    ensures
        r@ == human_size_text(a as nat) + " / "@ + human_size_text(b as nat),
{
    let mut s = human_size(a);
    s.append(" / ");
    let t = human_size(b);
    s.append(t.as_str());
    s
}

/// The title of the used-memory gauge.
pub fn used_title(stats: &MemStats) -> (r: String)
    ensures
        r@ == "Used ("@ + human_size_text(stats.used_bytes as nat) + " / "@ + human_size_text(
            stats.total_bytes as nat,
        ) + ")"@,
{
    let mut s = String::from_str("Used (");
    let t = sizes_of(stats.used_bytes, stats.total_bytes);
    s.append(t.as_str());
    s.append(")");
    assert(s@ =~= "Used ("@ + human_size_text(stats.used_bytes as nat) + " / "@ + human_size_text(
        stats.total_bytes as nat,
    ) + ")"@);
    s
}

/// The title of the swap gauge.
pub fn swap_title(stats: &MemStats) -> (r: String)
    ensures
        r@ == "Swap ("@ + human_size_text(stats.swap_used_bytes as nat) + " / "@ + human_size_text(
            stats.swap_total_bytes as nat,
        ) + ")"@,
{
    let mut s = String::from_str("Swap (");
    let t = sizes_of(stats.swap_used_bytes, stats.swap_total_bytes);
    s.append(t.as_str());
    s.append(")");
    assert(s@ =~= "Swap ("@ + human_size_text(stats.swap_used_bytes as nat) + " / "@ + human_size_text(
        stats.swap_total_bytes as nat,
    ) + ")"@);
    s
}

/// The memory panel's last line: the available memory, then the status, if
/// there is one.
pub fn memory_status_line(available: u64, status: Option<&str>) -> (r: String)
    ensures
        r@ == "Available: "@ + human_size_text(available as nat) + match status {
            Some(t) => "  \u{b7}  "@ + t@,
            None => Seq::empty(),
        },
{
    let mut s = String::from_str("Available: ");
    let size = human_size(available);
    s.append(size.as_str());
    match status {
        Some(t) => {
            s.append("  \u{b7}  ");
            s.append(t);
        },
        None => {},
    }
    assert(s@ =~= "Available: "@ + human_size_text(available as nat) + match status {
        Some(t) => "  \u{b7}  "@ + t@,
        None => Seq::empty(),
    });
    s
}

} // verus!
