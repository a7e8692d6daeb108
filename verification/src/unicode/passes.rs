//! Facts about the whole-text pass used by the laws: how its output grows,
//! which character `prev_kept` holds, and where each kept input character
//! lands in the output.

use super::context::{
    bidi_push, bidi_scan, embedding_opener, flag_block, in_bidi_embedding, in_flag_sequence,
    lemma_bidi_pdf_decided, lemma_bidi_scan_bounds, lemma_bidi_scan_monotone,
    lemma_bidi_scan_shape,
};
use super::decide::{
    base_rule, decide_rule, rule_keeps, rule_output, rule_replaces, rule_strips, CleanOptions,
    Rule,
};
use super::scan::{rule_at, scan};
use super::tables::{confusable_target, glue, is_ascii_letter};
use vstd::prelude::*;

verus! {

/// The last character of `out` that is not glue.
pub open spec fn last_non_glue(out: Seq<char>) -> Option<char>
    decreases out.len(),
{
    if out.len() == 0 {
        None
    } else if glue(out.last() as u32) {
        last_non_glue(out.drop_last())
    } else {
        Some(out.last())
    }
}

/// A replacing rule writes U+0020 or an ASCII letter.
pub proof fn lemma_replacement_is_ascii(
    ch: char,
    pk: Option<char>,
    pi: Option<char>,
    ni: Option<char>,
    flag: bool,
    bidi: bool,
    anch: bool,
    panch: bool,
    opts: CleanOptions,
)
    requires
        rule_replaces(decide_rule(ch, pk, pi, ni, flag, bidi, anch, panch, opts)),
    ensures
        rule_output(decide_rule(ch, pk, pi, ni, flag, bidi, anch, panch, opts), ch) == ' ' || is_ascii_letter(
            rule_output(decide_rule(ch, pk, pi, ni, flag, bidi, anch, panch, opts), ch),
        ),
{
    let r = decide_rule(ch, pk, pi, ni, flag, bidi, anch, panch, opts);
    assert(r == base_rule(ch, opts));
    if r is Confusable {
        let cp = ch as u32;
        assert(confusable_target(cp) is Some);
        if 0xFF21 <= cp <= 0xFF3A {
            let b = (cp - 0xFF21 + 0x41) as u8;
            assert(0x41 <= b <= 0x5A);
        } else if 0xFF41 <= cp <= 0xFF5A {
            let b = (cp - 0xFF41 + 0x61) as u8;
            assert(0x61 <= b <= 0x7A);
        }
    }
}

/// The pass's `prev_kept` is the last non-glue character of its output.
pub proof fn lemma_prev_kept_is_last_non_glue(s: Seq<char>, n: nat, opts: CleanOptions)
    requires
        n <= s.len(),
    ensures
        scan(s, n, opts).prev_kept == last_non_glue(scan(s, n, opts).out),
    decreases n,
{
    if n > 0 {
        lemma_prev_kept_is_last_non_glue(s, (n - 1) as nat, opts);
        let st = scan(s, (n - 1) as nat, opts);
        let i = n - 1;
        let r = rule_at(s, i, st.prev_kept, opts);
        let next = scan(s, n, opts);
        if rule_keeps(r) {
            assert(next.out.drop_last() =~= st.out);
        } else if rule_replaces(r) {
            lemma_replacement_is_ascii(
                s[i],
                st.prev_kept,
                super::scan::prev_input_at(s, i),
                super::scan::next_input_at(s, i),
                in_flag_sequence(s, i),
                super::context::in_bidi_embedding(s, i),
                super::decide::mongolian_anchored(s, i),
                i > 0 && super::decide::mongolian_anchored(s, i - 1),
                opts,
            );
            assert(next.out.drop_last() =~= st.out);
        }
    }
}

/// The output after `m` characters is a prefix of the output after `n >= m`.
pub proof fn lemma_scan_out_prefix(s: Seq<char>, m: nat, n: nat, opts: CleanOptions)
    requires
        m <= n,
    ensures
        scan(s, m, opts).out.len() <= scan(s, n, opts).out.len(),
        scan(s, m, opts).out == scan(s, n, opts).out.take(scan(s, m, opts).out.len() as int),
    decreases n,
{
    if m < n {
        lemma_scan_out_prefix(s, m, (n - 1) as nat, opts);
        let a = scan(s, m, opts).out;
        let b = scan(s, (n - 1) as nat, opts).out;
        let c = scan(s, n, opts).out;
        assert(c.take(b.len() as int) =~= b);
        assert(c.take(a.len() as int) =~= b.take(a.len() as int));
    } else {
        assert(scan(s, n, opts).out.take(scan(s, n, opts).out.len() as int) =~= scan(s, n, opts).out);
    }
}

/// Position `i` of `s` is kept unchanged by the pass (its rule keeps).
pub open spec fn kept_at(s: Seq<char>, i: int, opts: CleanOptions) -> bool {
    rule_keeps(rule_at(s, i, scan(s, i as nat, opts).prev_kept, opts))
}

/// Where position `i` of the input lands in the output.
pub open spec fn out_pos(s: Seq<char>, i: int, opts: CleanOptions) -> int {
    scan(s, i as nat, opts).out.len() as int
}

/// A kept or replaced character lands at `out_pos` in the final output, and
/// the next position lands right after it.
pub proof fn lemma_lands_at(s: Seq<char>, i: int, opts: CleanOptions)
    requires
        0 <= i < s.len(),
        !rule_strips(rule_at(s, i, scan(s, i as nat, opts).prev_kept, opts)),
    ensures
        out_pos(s, i + 1, opts) == out_pos(s, i, opts) + 1,
        out_pos(s, i, opts) < scan(s, s.len(), opts).out.len(),
        scan(s, s.len(), opts).out[out_pos(s, i, opts)] == rule_output(
            rule_at(s, i, scan(s, i as nat, opts).prev_kept, opts),
            s[i],
        ),
{
    lemma_scan_out_prefix(s, (i + 1) as nat, s.len(), opts);
    let a = scan(s, (i + 1) as nat, opts).out;
    let b = scan(s, s.len(), opts).out;
    assert(b.take(a.len() as int)[out_pos(s, i, opts)] == a[out_pos(s, i, opts)]);
}

/// A run of kept positions `[a, k)` lands contiguously in the output.
pub proof fn lemma_kept_run(s: Seq<char>, a: int, k: int, opts: CleanOptions)
    requires
        0 <= a <= k <= s.len(),
        forall|m: int| a <= m < k ==> #[trigger] kept_at(s, m, opts),
    ensures
        out_pos(s, k, opts) == out_pos(s, a, opts) + (k - a),
        forall|m: int| a <= m <= k ==> #[trigger] out_pos(s, m, opts) == out_pos(s, a, opts) + (m - a),
        forall|m: int|
            a <= m < k ==> out_pos(s, a, opts) + (m - a) < scan(s, s.len(), opts).out.len()
                && #[trigger] scan(s, s.len(), opts).out[out_pos(s, a, opts) + (m - a)] == s[m],
    decreases k - a,
{
    if k > a {
        lemma_kept_run(s, a, k - 1, opts);
        assert(kept_at(s, k - 1, opts));
        lemma_lands_at(s, k - 1, opts);
        let t = scan(s, s.len(), opts).out;
        assert(out_pos(s, k - 1, opts) == out_pos(s, a, opts) + (k - 1 - a));
        assert(t[out_pos(s, a, opts) + (k - 1 - a)] == s[k - 1]);
    }
}

/// The base rule of the waving black flag keeps it.
pub proof fn lemma_flag_base_kept(s: Seq<char>, i: int, pk: Option<char>, opts: CleanOptions)
    requires
        0 <= i < s.len(),
        s[i] as u32 == 0x1F3F4,
    ensures
        rule_keeps(rule_at(s, i, pk, opts)),
{
    assert(base_rule(s[i], opts) == Rule::Plain);
}

/// A tag character of a complete flag sequence is kept when glue is kept.
pub proof fn lemma_flag_tag_kept(s: Seq<char>, i: int, pk: Option<char>, opts: CleanOptions)
    requires
        0 <= i < s.len(),
        in_flag_sequence(s, i),
        !opts.strip_emoji_glue,
    ensures
        rule_keeps(rule_at(s, i, pk, opts)),
{
    let (a, b) = choose|a: int, b: int| #[trigger] flag_block(s, a, b) && a < i <= b;
    if i < b {
        assert(super::context::flag_tag_char(s[i]));
    }
}

/// When glue is kept, a complete flag sequence survives the pass intact, so
/// its tag characters are again part of a complete flag sequence in the output.
pub proof fn lemma_flag_sequence_survives(s: Seq<char>, i: int, opts: CleanOptions)
    requires
        0 <= i < s.len(),
        in_flag_sequence(s, i),
        !opts.strip_emoji_glue,
    ensures
        in_flag_sequence(scan(s, s.len(), opts).out, out_pos(s, i, opts)),
{
    let t = scan(s, s.len(), opts).out;
    let (a, b) = choose|a: int, b: int| #[trigger] flag_block(s, a, b) && a < i <= b;
    assert forall|m: int| a <= m < b + 1 implies #[trigger] kept_at(s, m, opts) by {
        if m == a {
            lemma_flag_base_kept(s, m, scan(s, m as nat, opts).prev_kept, opts);
        } else {
            assert(flag_block(s, a, b) && a < m <= b);
            lemma_flag_tag_kept(s, m, scan(s, m as nat, opts).prev_kept, opts);
        }
    }
    lemma_kept_run(s, a, b + 1, opts);
    let pa = out_pos(s, a, opts);
    let pb = out_pos(s, b, opts);
    assert(t[pa + (a - a)] == s[a]);
    assert(out_pos(s, b, opts) == pa + (b - a));
    assert(t[pa + (b - a)] == s[b]);
    assert forall|m: int| pa < m < pb implies super::context::flag_tag_char(#[trigger] t[m]) by {
        let k = a + (m - pa);
        assert(t[pa + (k - a)] == s[k]);
        assert(super::context::flag_tag_char(s[k]));
    }
    assert(flag_block(t, pa, pb));
    assert(out_pos(s, i, opts) == pa + (i - a));
}

/// The part of a bidi stack of the input that survives into the output,
/// with indices moved to where they land in the output.
pub open spec fn kept_stack(stack: Seq<(u32, int)>, v: Set<int>, s: Seq<char>, opts: CleanOptions) -> Seq<(u32, int)>
    decreases stack.len(),
{
    if stack.len() == 0 {
        seq![]
    } else {
        let rest = kept_stack(stack.drop_last(), v, s, opts);
        let e = stack.last();
        if v.contains(e.1) {
            rest.push((e.0, out_pos(s, e.1, opts)))
        } else {
            rest
        }
    }
}

/// Running the bidi stack over the output in step with the input: the
/// output's stack is the input's stack restricted to matched openers, and
/// every matched pair of the input is matched in the output.
proof fn lemma_bidi_simulation(s: Seq<char>, i: nat, opts: CleanOptions)
    requires
        i <= s.len(),
        !opts.strip_bidi,
    ensures
        out_pos(s, i as int, opts) <= scan(s, s.len(), opts).out.len(),
        bidi_scan(scan(s, s.len(), opts).out, out_pos(s, i as int, opts) as nat).0 == kept_stack(
            bidi_scan(s, i).0,
            bidi_scan(s, s.len()).1,
            s,
            opts,
        ),
        forall|k: int|
            bidi_scan(s, i).1.contains(k) ==> bidi_scan(
                scan(s, s.len(), opts).out,
                out_pos(s, i as int, opts) as nat,
            ).1.contains(#[trigger] out_pos(s, k, opts)),
    decreases i,
{
    let t = scan(s, s.len(), opts).out;
    let vf = bidi_scan(s, s.len()).1;
    lemma_scan_out_prefix(s, i, s.len(), opts);
    if i > 0 {
        let p = (i - 1) as int;
        lemma_bidi_simulation(s, (i - 1) as nat, opts);
        lemma_bidi_scan_shape(s, p as nat);
        lemma_bidi_scan_shape(s, s.len());
        lemma_bidi_scan_bounds(s, p as nat);
        lemma_bidi_scan_monotone(s, i, s.len());
        let st = scan(s, p as nat, opts);
        let r = rule_at(s, p, st.prev_kept, opts);
        let cp = s[p] as u32;
        let jp = out_pos(s, p, opts);
        let sp = bidi_scan(s, p as nat);
        let tp = bidi_scan(t, jp as nat);
        if bidi_push(cp) {
            if vf.contains(p) {
                assert(r == Rule::PairedEmbedding);
                lemma_lands_at(s, p, opts);
                assert(t[jp] == s[p]);
                let si = bidi_scan(s, i);
                assert(si.0 == sp.0.push((cp, p)));
                assert(si.0.drop_last() =~= sp.0);
            } else {
                assert(r == Rule::StripTable);
                let si = bidi_scan(s, i);
                assert(si.0.drop_last() =~= sp.0);
            }
        } else if cp == 0x202C {
            lemma_bidi_pdf_decided(s, p as nat, s.len());
            if sp.0.len() > 0 {
                let e = sp.0.last();
                assert(s[e.1] as u32 == e.0 && bidi_push(e.0));
                if embedding_opener(e.0) {
                    assert(bidi_scan(s, i).1.contains(p));
                    assert(vf.contains(p));
                    assert(vf.contains(e.1));
                    assert(r == Rule::PairedEmbedding);
                    lemma_lands_at(s, p, opts);
                    assert(t[jp] == s[p]);
                    assert(tp.0 == kept_stack(sp.0, vf, s, opts));
                    assert(tp.0.len() > 0);
                    assert(tp.0.last() == (e.0, out_pos(s, e.1, opts)));
                    assert(tp.0.drop_last() == kept_stack(sp.0.drop_last(), vf, s, opts));
                } else {
                    assert(!vf.contains(p));
                    assert(!vf.contains(e.1));
                    assert(r == Rule::StripTable);
                }
            } else {
                assert(!vf.contains(p));
                assert(r == Rule::StripTable);
            }
        } else {
            if !rule_strips(r) {
                lemma_lands_at(s, p, opts);
                if rule_replaces(r) {
                    lemma_replacement_is_ascii(
                        s[p],
                        st.prev_kept,
                        super::scan::prev_input_at(s, p),
                        super::scan::next_input_at(s, p),
                        in_flag_sequence(s, p),
                        in_bidi_embedding(s, p),
                        super::decide::mongolian_anchored(s, p),
                        p > 0 && super::decide::mongolian_anchored(s, p - 1),
                        opts,
                    );
                }
                assert(bidi_scan(t, (jp + 1) as nat) == tp);
            }
        }
    }
}

/// When bidi controls are not stripped, a matched embedding pair survives the
/// pass and is matched again in the output.
pub proof fn lemma_bidi_embedding_survives(s: Seq<char>, i: int, opts: CleanOptions)
    requires
        0 <= i < s.len(),
        in_bidi_embedding(s, i),
        !opts.strip_bidi,
    ensures
        in_bidi_embedding(scan(s, s.len(), opts).out, out_pos(s, i, opts)),
{
    lemma_bidi_simulation(s, s.len(), opts);
    let t = scan(s, s.len(), opts).out;
    assert(out_pos(s, s.len() as int, opts) == t.len());
}

} // verus!
