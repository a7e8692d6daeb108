//! Text labels for code points (`U+200B`, `U+200B (Format)`) and per-label
//! tallies.

use super::ucd::{category_name, general_category_of};
use crate::text::{collect_chars, push_all, push_char};
use vstd::prelude::*;

verus! {

/// The uppercase hexadecimal digit for `d` (0..15).
pub open spec fn hex_digit(d: int) -> char {
    if d < 10 {
        ((d + 48) as u8) as char
    } else {
        ((d + 55) as u8) as char
    }
}

/// Uppercase hexadecimal digits of a code point (at most U+10FFFF), padded
/// with zeros to at least four digits.
pub open spec fn hex_code(cp: u32) -> Seq<char> {
    let low = seq![
        hex_digit((cp / 0x1000) as int % 16),
        hex_digit((cp / 0x100) as int % 16),
        hex_digit((cp / 0x10) as int % 16),
        hex_digit(cp as int % 16),
    ];
    if cp >= 0x100000 {
        seq![hex_digit((cp / 0x100000) as int % 16), hex_digit((cp / 0x10000) as int % 16)] + low
    } else if cp >= 0x10000 {
        seq![hex_digit((cp / 0x10000) as int % 16)] + low
    } else {
        low
    }
}

/// `U+` followed by the code point in uppercase hexadecimal.
pub open spec fn codepoint_text(c: char) -> Seq<char> {
    seq!['U', '+'] + hex_code(c as u32)
}

/// `U+XXXX (Category)`: the code point and the name of its general category.
pub open spec fn char_label_of(c: char) -> Seq<char> {
    codepoint_text(c) + seq![' ', '('] + category_name(c) + seq![')']
}

/// Hexadecimal digits are never a space, and different digits are
/// different characters.
proof fn lemma_hex_digit(d: int, e: int)
    requires
        0 <= d < 16,
        0 <= e < 16,
    ensures
        hex_digit(d) != ' ',
        hex_digit(d) == hex_digit(e) ==> d == e,
{
    vstd::utf8::char_u32_cast(hex_digit(d), hex_digit(d) as u32);
    vstd::utf8::char_u32_cast(hex_digit(e), hex_digit(e) as u32);
}

/// The code point can be read back from its hexadecimal digits.
proof fn lemma_hex_code_injective(a: u32, b: u32)
    requires
        a <= 0x10FFFF,
        b <= 0x10FFFF,
        hex_code(a) == hex_code(b),
    ensures
        a == b,
{
    let ha = hex_code(a);
    let hb = hex_code(b);
    let n = ha.len();
    assert(n == hb.len());
    assert forall|k: int| 0 <= k < n implies ha[k] == hb[k] by {}
    let a0 = a as int % 16;
    let a1 = (a / 0x10) as int % 16;
    let a2 = (a / 0x100) as int % 16;
    let a3 = (a / 0x1000) as int % 16;
    let a4 = (a / 0x10000) as int % 16;
    let a5 = (a / 0x100000) as int % 16;
    let b0 = b as int % 16;
    let b1 = (b / 0x10) as int % 16;
    let b2 = (b / 0x100) as int % 16;
    let b3 = (b / 0x1000) as int % 16;
    let b4 = (b / 0x10000) as int % 16;
    let b5 = (b / 0x100000) as int % 16;
    lemma_hex_digit(a0, b0);
    lemma_hex_digit(a1, b1);
    lemma_hex_digit(a2, b2);
    lemma_hex_digit(a3, b3);
    lemma_hex_digit(a4, b4);
    lemma_hex_digit(a5, b5);
    assert(ha[n - 1] == hex_digit(a0) && hb[n - 1] == hex_digit(b0));
    assert(ha[n - 2] == hex_digit(a1) && hb[n - 2] == hex_digit(b1));
    assert(ha[n - 3] == hex_digit(a2) && hb[n - 3] == hex_digit(b2));
    assert(ha[n - 4] == hex_digit(a3) && hb[n - 4] == hex_digit(b3));
    assert(a0 == b0 && a1 == b1 && a2 == b2 && a3 == b3);
    if n == 4 {
        assert(a < 0x10000 && b < 0x10000);
        assert(((a % 16 == b % 16) && ((a / 0x10) % 16 == (b / 0x10) % 16) && ((a / 0x100) % 16
            == (b / 0x100) % 16) && ((a / 0x1000) % 16 == (b / 0x1000) % 16) && a < 0x10000 && b
            < 0x10000) ==> a == b) by (bit_vector);
    } else if n == 5 {
        assert(ha[0] == hex_digit(a4) && hb[0] == hex_digit(b4));
        assert(0x10000 <= a < 0x100000 && 0x10000 <= b < 0x100000);
        assert(((a % 16 == b % 16) && ((a / 0x10) % 16 == (b / 0x10) % 16) && ((a / 0x100) % 16
            == (b / 0x100) % 16) && ((a / 0x1000) % 16 == (b / 0x1000) % 16) && ((a / 0x10000)
            % 16 == (b / 0x10000) % 16) && a < 0x100000 && b < 0x100000) ==> a == b)
            by (bit_vector);
    } else {
        assert(ha[0] == hex_digit(a5) && hb[0] == hex_digit(b5));
        assert(ha[1] == hex_digit(a4) && hb[1] == hex_digit(b4));
        assert(((a % 16 == b % 16) && ((a / 0x10) % 16 == (b / 0x10) % 16) && ((a / 0x100) % 16
            == (b / 0x100) % 16) && ((a / 0x1000) % 16 == (b / 0x1000) % 16) && ((a / 0x10000)
            % 16 == (b / 0x10000) % 16) && ((a / 0x100000) % 16 == (b / 0x100000) % 16) && a
            <= 0x10FFFF && b <= 0x10FFFF) ==> a == b) by (bit_vector);
    }
}

/// Different characters have different labels.
pub proof fn lemma_char_label_injective(a: char, b: char)
    requires
        char_label_of(a) == char_label_of(b),
    ensures
        a == b,
{
    vstd::utf8::char_is_scalar(a);
    vstd::utf8::char_is_scalar(b);
    let ha = hex_code(a as u32);
    let hb = hex_code(b as u32);
    let la = char_label_of(a);
    assert(ha.len() >= 4 && ha.len() <= 6);
    assert(hb.len() >= 4 && hb.len() <= 6);
    assert forall|k: int| 0 <= k < ha.len() implies ha[k] != ' ' by {
        assert(a as u32 <= 0x10FFFF);
    }
    assert forall|k: int| 0 <= k < hb.len() implies hb[k] != ' ' by {
        assert(b as u32 <= 0x10FFFF);
    }
    assert(la[2 + ha.len() as int] == ' ');
    assert(char_label_of(b)[2 + hb.len() as int] == ' ');
    if ha.len() < hb.len() {
        assert(char_label_of(b)[2 + ha.len() as int] == hb[ha.len() as int]);
    }
    if hb.len() < ha.len() {
        assert(la[2 + hb.len() as int] == ha[hb.len() as int]);
    }
    assert(ha.len() == hb.len());
    assert forall|k: int| 0 <= k < ha.len() implies ha[k] == hb[k] by {
        assert(la[2 + k] == ha[k]);
        assert(char_label_of(b)[2 + k] == hb[k]);
    }
    assert(ha =~= hb);
    lemma_hex_code_injective(a as u32, b as u32);
    vstd::utf8::char_u32_cast(a, a as u32);
    vstd::utf8::char_u32_cast(b, b as u32);
}

fn hex_digit_char(d: u32) -> (c: char)
    requires
        d < 16,
    ensures
        c == hex_digit(d as int),
{
    if d < 10 {
        let b: u8 = (d + 48) as u8;
        b as char
    } else {
        let b: u8 = (d + 55) as u8;
        b as char
    }
}

/// Appends `U+` and the code point of `c` in uppercase hexadecimal.
pub fn push_codepoint(out: &mut String, c: char)
    ensures
        final(out)@ == old(out)@ + codepoint_text(c),
{
    let cp = c as u32;
    let ghost start = out@;
    push_char(out, 'U');
    push_char(out, '+');
    if cp >= 0x100000 {
        push_char(out, hex_digit_char((cp / 0x100000) % 16));
    }
    if cp >= 0x10000 {
        push_char(out, hex_digit_char((cp / 0x10000) % 16));
    }
    push_char(out, hex_digit_char((cp / 0x1000) % 16));
    push_char(out, hex_digit_char((cp / 0x100) % 16));
    push_char(out, hex_digit_char((cp / 0x10) % 16));
    push_char(out, hex_digit_char(cp % 16));
    assert(out@ =~= start + codepoint_text(c));
}

/// The text `U+XXXX` for a character.
pub fn codepoint_string(c: char) -> (s: String)
    ensures
        s@ == codepoint_text(c),
{
    let mut s = String::new();
    push_codepoint(&mut s, c);
    assert(s@ =~= codepoint_text(c));
    s
}

/// The label `U+XXXX (Category)` under which a character is counted.
pub fn char_label(c: char) -> (s: String)
    ensures
        s@ == char_label_of(c),
{
    let (_abbreviation, name) = general_category_of(c);
    let mut s = String::new();
    push_codepoint(&mut s, c);
    push_char(&mut s, ' ');
    push_char(&mut s, '(');
    push_all(&mut s, name.as_str());
    push_char(&mut s, ')');
    assert(s@ =~= char_label_of(c));
    s
}

/// `a` orders before `b` as `String`s do: lexicographically by code point,
/// a proper prefix first.
pub open spec fn label_lt(a: Seq<char>, b: Seq<char>) -> bool
    decreases a.len(),
{
    if b.len() == 0 {
        false
    } else if a.len() == 0 {
        true
    } else if a[0] != b[0] {
        (a[0] as u32) < (b[0] as u32)
    } else {
        label_lt(a.drop_first(), b.drop_first())
    }
}

proof fn lemma_label_lt_irreflexive(a: Seq<char>)
    ensures
        !label_lt(a, a),
    decreases a.len(),
{
    if a.len() > 0 {
        lemma_label_lt_irreflexive(a.drop_first());
    }
}

proof fn lemma_label_lt_transitive(a: Seq<char>, b: Seq<char>, c: Seq<char>)
    requires
        label_lt(a, b),
        label_lt(b, c),
    ensures
        label_lt(a, c),
    decreases a.len(),
{
    if a.len() > 0 && b.len() > 0 && c.len() > 0 && a[0] == b[0] && b[0] == c[0] {
        lemma_label_lt_transitive(a.drop_first(), b.drop_first(), c.drop_first());
    }
}

proof fn lemma_label_lt_total(a: Seq<char>, b: Seq<char>)
    requires
        a != b,
    ensures
        label_lt(a, b) || label_lt(b, a),
    decreases a.len(),
{
    if a.len() > 0 && b.len() > 0 && a[0] == b[0] {
        if a.drop_first() == b.drop_first() {
            assert(a.drop_first().len() == a.len() - 1);
            assert(b.drop_first().len() == b.len() - 1);
            assert(a.len() == b.len());
            assert forall|i: int| 0 <= i < a.len() implies a[i] == b[i] by {
                if i > 0 {
                    assert(a[i] == a.drop_first()[i - 1]);
                    assert(b[i] == b.drop_first()[i - 1]);
                }
            }
            assert(a =~= b);
        } else {
            lemma_label_lt_total(a.drop_first(), b.drop_first());
        }
    } else if a.len() == 0 && b.len() == 0 {
        assert(a =~= b);
    } else if a.len() > 0 && b.len() > 0 {
        vstd::utf8::char_u32_cast(a[0], a[0] as u32);
        vstd::utf8::char_u32_cast(b[0], b[0] as u32);
    }
}

/// Compare two labels as `String`s are ordered.
fn label_less(a: &String, b: &String) -> (r: bool)
    ensures
        r == label_lt(a@, b@),
{
    let x = collect_chars(a.as_str());
    let y = collect_chars(b.as_str());
    let mut i: usize = 0;
    assert(x@.skip(0) =~= x@);
    assert(y@.skip(0) =~= y@);
    while i < x.len() && i < y.len()
        invariant
            x@ == a@,
            y@ == b@,
            i <= x@.len(),
            i <= y@.len(),
            label_lt(a@, b@) == label_lt(x@.skip(i as int), y@.skip(i as int)),
        decreases x@.len() - i,
    {
        let xs = Ghost(x@.skip(i as int));
        let ys = Ghost(y@.skip(i as int));
        assert(xs@[0] == x@[i as int]);
        assert(ys@[0] == y@[i as int]);
        if x[i] != y[i] {
            return (x[i] as u32) < (y[i] as u32);
        }
        assert(xs@.drop_first() =~= x@.skip(i + 1));
        assert(ys@.drop_first() =~= y@.skip(i + 1));
        i += 1;
    }
    i < y.len()
}

/// How often `l` occurs in `labels`.
pub open spec fn occurrences(labels: Seq<Seq<char>>, l: Seq<char>) -> nat
    decreases labels.len(),
{
    if labels.len() == 0 {
        0
    } else {
        occurrences(labels.drop_last(), l) + if labels.last() == l {
            1nat
        } else {
            0nat
        }
    }
}

proof fn lemma_occurrences_push(labels: Seq<Seq<char>>, x: Seq<char>, l: Seq<char>)
    ensures
        occurrences(labels.push(x), l) == occurrences(labels, l) + if x == l {
            1nat
        } else {
            0nat
        },
{
    assert(labels.push(x).drop_last() =~= labels);
}

proof fn lemma_occurrences_bounds(labels: Seq<Seq<char>>, l: Seq<char>)
    ensures
        occurrences(labels, l) <= labels.len(),
        occurrences(labels, l) > 0 <==> labels.contains(l),
    decreases labels.len(),
{
    if labels.len() > 0 {
        let rest = labels.drop_last();
        lemma_occurrences_bounds(rest, l);
        assert(labels =~= rest.push(labels.last()));
        if rest.contains(l) {
            let k = choose|k: int| 0 <= k < rest.len() && rest[k] == l;
            assert(labels[k] == l);
        }
        if labels.contains(l) && labels.last() != l {
            let k = choose|k: int| 0 <= k < labels.len() && labels[k] == l;
            assert(rest[k] == l);
        }
    }
}

/// `t` counts `labels`: one (label, count) pair per distinct label, in
/// ascending label order, as a `BTreeMap` keyed by the label iterates.
pub open spec fn counts(t: Seq<(Seq<char>, nat)>, labels: Seq<Seq<char>>) -> bool {
    &&& forall|i: int, j: int| 0 <= i < j < t.len() ==> label_lt(#[trigger] t[i].0, #[trigger] t[j].0)
    &&& forall|k: int| 0 <= k < t.len() ==> #[trigger] t[k].1 == occurrences(labels, t[k].0)
    &&& forall|l: Seq<char>|
        labels.contains(l) <==> exists|k: int| 0 <= k < t.len() && #[trigger] t[k].0 == l
}

/// The sum of the counts of a tally.
pub open spec fn total_count(t: Seq<(Seq<char>, nat)>) -> nat
    decreases t.len(),
{
    if t.len() == 0 {
        0
    } else {
        total_count(t.drop_last()) + t.last().1
    }
}

proof fn lemma_total_count_update(t: Seq<(Seq<char>, nat)>, k: int, v: (Seq<char>, nat))
    requires
        0 <= k < t.len(),
    ensures
        total_count(t.update(k, v)) + t[k].1 == total_count(t) + v.1,
    decreases t.len(),
{
    let u = t.update(k, v);
    if k < t.len() - 1 {
        assert(u.drop_last() =~= t.drop_last().update(k, v));
        lemma_total_count_update(t.drop_last(), k, v);
    } else {
        assert(u.drop_last() =~= t.drop_last());
    }
}

proof fn lemma_total_count_remove(t: Seq<(Seq<char>, nat)>, k: int)
    requires
        0 <= k < t.len(),
    ensures
        total_count(t.remove(k)) + t[k].1 == total_count(t),
    decreases t.len(),
{
    let u = t.remove(k);
    if k < t.len() - 1 {
        assert(u.drop_last() =~= t.drop_last().remove(k));
        assert(u.last() == t.last());
        lemma_total_count_remove(t.drop_last(), k);
    } else {
        assert(u =~= t.drop_last());
    }
}

/// The counts of a tally add up to the number of labels tallied.
pub proof fn lemma_counts_total(t: Seq<(Seq<char>, nat)>, labels: Seq<Seq<char>>)
    requires
        counts(t, labels),
    ensures
        total_count(t) == labels.len(),
    decreases labels.len(),
{
    if labels.len() == 0 {
        if t.len() > 0 {
            let x = t[0].0;
            assert(!labels.contains(x));
            assert(t[0].0 == x);
        }
    } else {
        let l = labels.last();
        let rest = labels.drop_last();
        assert(labels =~= rest.push(l));
        assert(labels.contains(l)) by {
            assert(labels[labels.len() - 1] == l);
        }
        let k = choose|k: int| 0 <= k < t.len() && #[trigger] t[k].0 == l;
        let c = t[k].1;
        assert forall|x: Seq<char>| #[trigger] occurrences(labels, x) == occurrences(rest, x) + if x == l {
            1nat
        } else {
            0nat
        } by {
            lemma_occurrences_push(rest, l, x);
        }
        assert forall|x: Seq<char>| #[trigger] labels.contains(x) <==> (rest.contains(x) || x == l) by {
            if labels.contains(x) && x != l {
                let m = choose|m: int| 0 <= m < labels.len() && labels[m] == x;
                assert(rest[m] == x);
            }
            if rest.contains(x) {
                let m = choose|m: int| 0 <= m < rest.len() && rest[m] == x;
                assert(labels[m] == x);
            }
        }
        assert forall|m: int| 0 <= m < t.len() && m != k implies #[trigger] t[m].0 != l by {
            if m < k {
                assert(label_lt(t[m].0, t[k].0));
            } else {
                assert(label_lt(t[k].0, t[m].0));
            }
            lemma_label_lt_irreflexive(l);
        }
        lemma_occurrences_bounds(rest, l);
        if c > 1 {
            let t0 = t.update(k, (l, (c - 1) as nat));
            assert(rest.contains(l));
            assert forall|x: Seq<char>| rest.contains(x) implies exists|m: int| 0 <= m < t0.len() && #[trigger] t0[m].0 == x by {
                assert(labels.contains(x));
                let m = choose|m: int| 0 <= m < t.len() && #[trigger] t[m].0 == x;
                assert(t0[m].0 == x);
            }
            assert forall|x: Seq<char>| (exists|m: int| 0 <= m < t0.len() && #[trigger] t0[m].0 == x) implies rest.contains(x) by {
                let m = choose|m: int| 0 <= m < t0.len() && #[trigger] t0[m].0 == x;
                assert(t[m].0 == x);
                assert(exists|k: int| 0 <= k < t.len() && #[trigger] t[k].0 == x);
                assert(labels.contains(x));
            }
            lemma_counts_total(t0, rest);
            lemma_total_count_update(t, k, (l, (c - 1) as nat));
        } else {
            let t0 = t.remove(k);
            assert(!rest.contains(l));
            assert forall|i: int, j: int| 0 <= i < j < t0.len() implies label_lt(#[trigger] t0[i].0, #[trigger] t0[j].0) by {
                let i1 = if i < k { i } else { i + 1 };
                let j1 = if j < k { j } else { j + 1 };
                assert(t0[i] == t[i1] && t0[j] == t[j1]);
            }
            assert forall|m: int| 0 <= m < t0.len() implies #[trigger] t0[m].1 == occurrences(rest, t0[m].0) by {
                let m1 = if m < k { m } else { m + 1 };
                assert(t0[m] == t[m1]);
            }
            assert forall|x: Seq<char>| rest.contains(x) implies exists|m: int| 0 <= m < t0.len() && #[trigger] t0[m].0 == x by {
                assert(labels.contains(x));
                let m = choose|m: int| 0 <= m < t.len() && #[trigger] t[m].0 == x;
                if m < k {
                    assert(t0[m].0 == x);
                } else {
                    assert(t0[m - 1].0 == x);
                }
            }
            assert forall|x: Seq<char>| (exists|m: int| 0 <= m < t0.len() && #[trigger] t0[m].0 == x) implies rest.contains(x) by {
                let m = choose|m: int| 0 <= m < t0.len() && #[trigger] t0[m].0 == x;
                let m1 = if m < k { m } else { m + 1 };
                assert(t0[m] == t[m1]);
                assert(t[m1].0 == x);
                assert(exists|j: int| 0 <= j < t.len() && #[trigger] t[j].0 == x);
                assert(labels.contains(x));
                assert(x != l);
            }
            lemma_counts_total(t0, rest);
            lemma_total_count_remove(t, k);
        }
    }
}

/// A tally of `String` labels, viewed as label sequences with counts.
pub open spec fn tally_view(t: Seq<(String, usize)>) -> Seq<(Seq<char>, nat)> {
    t.map_values(|e: (String, usize)| (e.0@, e.1 as nat))
}

/// A tally under construction: labels and counts side by side.
pub struct Tally {
    pub labels: Vec<String>,
    pub counts: Vec<usize>,
}

impl Tally {
    pub open spec fn view_seq(&self) -> Seq<(Seq<char>, nat)> {
        Seq::new(self.labels@.len(), |k: int| (self.labels@[k]@, self.counts@[k] as nat))
    }

    pub open spec fn wf(&self) -> bool {
        self.labels@.len() == self.counts@.len()
    }

    pub fn new() -> (t: Tally)
        ensures
            t.wf(),
            counts(t.view_seq(), Seq::<Seq<char>>::empty()),
    {
        let t = Tally { labels: Vec::new(), counts: Vec::new() };
        assert(t.view_seq() =~= Seq::<(Seq<char>, nat)>::empty());
        assert forall|l: Seq<char>| !Seq::<Seq<char>>::empty().contains(l) by {}
        t
    }

    /// Count one more occurrence of `label`.
    pub fn add(&mut self, label: String, Ghost(seen): Ghost<Seq<Seq<char>>>)
        requires
            old(self).wf(),
            counts(old(self).view_seq(), seen),
            seen.len() < usize::MAX,
        ensures
            final(self).wf(),
            counts(final(self).view_seq(), seen.push(label@)),
    {
        let ghost before = self.view_seq();
        let ghost l = label@;
        let ghost after = seen.push(l);
        proof {
            assert forall|x: Seq<char>| #[trigger] occurrences(after, x) == occurrences(seen, x) + if x
                == l {
                1nat
            } else {
                0nat
            } by {
                lemma_occurrences_push(seen, l, x);
            }
            assert forall|x: Seq<char>| #[trigger] after.contains(x) <==> (seen.contains(x) || x == l) by {
                if after.contains(x) && x != l {
                    let k = choose|k: int| 0 <= k < after.len() && after[k] == x;
                    assert(seen[k] == x);
                }
                if seen.contains(x) {
                    let k = choose|k: int| 0 <= k < seen.len() && seen[k] == x;
                    assert(after[k] == x);
                }
                if x == l {
                    assert(after[seen.len() as int] == x);
                }
            }
        }
        let n = self.labels.len();
        let mut k: usize = 0;
        let mut searching = true;
        while searching && k < n
            invariant
                self.wf(),
                n == self.labels@.len(),
                self.view_seq() == before,
                l == label@,
                k <= n,
                forall|m: int| 0 <= m < k ==> label_lt(#[trigger] self.labels@[m]@, l),
                !searching ==> k < n && !label_lt(self.labels@[k as int]@, l),
            decreases n - k + if searching {
                1int
            } else {
                0int
            },
        {
            if label_less(&self.labels[k], &label) {
                k += 1;
            } else {
                searching = false;
            }
        }
        if k < n && self.labels[k] == label {
            let c = self.counts[k];
            proof {
                lemma_occurrences_bounds(seen, l);
                assert(before[k as int].1 == c as nat);
                assert(before[k as int].0 == l);
            }
            self.counts.set(k, c + 1);
            proof {
                let now = self.view_seq();
                assert(now =~= before.update(k as int, (l, before[k as int].1 + 1)));
                assert forall|m: int| 0 <= m < now.len() implies #[trigger] now[m].1 == occurrences(
                    after,
                    now[m].0,
                ) by {
                    if m != k {
                        if now[m].0 == l {
                            if m < k {
                                assert(label_lt(before[m].0, before[k as int].0));
                            } else {
                                assert(label_lt(before[k as int].0, before[m].0));
                            }
                            lemma_label_lt_irreflexive(l);
                        }
                    }
                }
                assert forall|x: Seq<char>| after.contains(x) implies exists|m: int|
                    0 <= m < now.len() && #[trigger] now[m].0 == x by {
                    if x == l {
                        assert(now[k as int].0 == x);
                    } else {
                        let m = choose|m: int| 0 <= m < before.len() && #[trigger] before[m].0 == x;
                        assert(now[m].0 == x);
                    }
                }
                assert forall|x: Seq<char>| (exists|m: int| 0 <= m < now.len() && #[trigger] now[m].0 == x) implies after.contains(x) by {
                    let m = choose|m: int| 0 <= m < now.len() && #[trigger] now[m].0 == x;
                    assert(before[m].0 == x);
                }
            }
        } else {
            proof {
                if k < n {
                    assert(before[k as int].0 == self.labels@[k as int]@);
                    assert(!label_lt(before[k as int].0, l));
                    lemma_label_lt_total(before[k as int].0, l);
                }
                assert forall|m: int| 0 <= m < before.len() implies #[trigger] before[m].0 != l by {
                    if m < k {
                        assert(label_lt(self.labels@[m]@, l));
                        lemma_label_lt_irreflexive(l);
                    } else {
                        if m > k {
                            assert(label_lt(before[k as int].0, before[m].0));
                            if before[m].0 == l {
                                lemma_label_lt_transitive(l, before[k as int].0, l);
                            }
                        }
                        lemma_label_lt_irreflexive(l);
                    }
                }
                assert(!seen.contains(l));
                lemma_occurrences_bounds(seen, l);
            }
            self.labels.insert(k, label);
            self.counts.insert(k, 1);
            proof {
                let now = self.view_seq();
                assert(now =~= before.insert(k as int, (l, 1nat)));
                assert forall|i: int, j: int| 0 <= i < j < now.len() implies label_lt(
                    #[trigger] now[i].0,
                    #[trigger] now[j].0,
                ) by {
                    if j < k {
                        assert(label_lt(before[i].0, before[j].0));
                    } else if j == k {
                        assert(label_lt(self.labels@[i]@, l));
                    } else if i == k {
                        if j - 1 > k {
                            assert(label_lt(before[k as int].0, before[j - 1].0));
                            lemma_label_lt_transitive(l, before[k as int].0, before[j - 1].0);
                        }
                    } else if i < k {
                        assert(label_lt(before[i].0, before[j - 1].0));
                    } else {
                        assert(label_lt(before[i - 1].0, before[j - 1].0));
                    }
                }
                assert forall|m: int| 0 <= m < now.len() implies #[trigger] now[m].1 == occurrences(
                    after,
                    now[m].0,
                ) by {
                    if m < k {
                        assert(now[m] == before[m]);
                    } else if m > k {
                        assert(now[m] == before[m - 1]);
                    }
                }
                assert forall|x: Seq<char>| after.contains(x) implies exists|m: int|
                    0 <= m < now.len() && #[trigger] now[m].0 == x by {
                    if x == l {
                        assert(now[k as int].0 == x);
                    } else {
                        let m = choose|m: int| 0 <= m < before.len() && #[trigger] before[m].0 == x;
                        if m < k {
                            assert(now[m].0 == x);
                        } else {
                            assert(now[m + 1].0 == x);
                        }
                    }
                }
                assert forall|x: Seq<char>| (exists|m: int| 0 <= m < now.len() && #[trigger] now[m].0 == x) implies after.contains(x) by {
                    let m = choose|m: int| 0 <= m < now.len() && #[trigger] now[m].0 == x;
                    if m < k {
                        assert(before[m].0 == x);
                    } else if m > k {
                        assert(before[m - 1].0 == x);
                    }
                }
            }
        }
    }

    /// The finished tally as (label, count) pairs.
    pub fn into_pairs(self) -> (pairs: Vec<(String, usize)>)
        requires
            self.wf(),
        ensures
            tally_view(pairs@) == self.view_seq(),
    {
        let mut pairs: Vec<(String, usize)> = Vec::new();
        let n = self.labels.len();
        for k in 0..n
            invariant
                n == self.labels@.len(),
                self.wf(),
                pairs@.len() == k,
                forall|m: int| 0 <= m < k ==> (#[trigger] pairs@[m]).0@ == self.labels@[m]@ && pairs@[m].1 == self.counts@[m],
        {
            pairs.push((self.labels[k].clone(), self.counts[k]));
        }
        assert(tally_view(pairs@) =~= self.view_seq());
        pairs
    }
}

} // verus!
