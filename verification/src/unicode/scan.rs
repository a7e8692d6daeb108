//! The whole-text pass: rules are decided left to right, each in the context
//! of its neighbours and of the last kept non-glue character.

use super::context::{in_bidi_embedding, in_flag_sequence};
use super::decide::{
    decide_rule, mongolian_anchored, rule_keeps, rule_output, rule_replaces, CleanOptions, Rule,
};
use super::tables::glue;
use vstd::prelude::*;

verus! {

/// The state of the pass after a prefix of the text.
pub struct ScanState {
    /// The last kept (or replacing) character that is not glue.
    pub prev_kept: Option<char>,
    /// The output so far.
    pub out: Seq<char>,
    /// The stripped characters, in order.
    pub removed: Seq<char>,
    /// The replaced characters (before replacement), in order.
    pub replaced: Seq<char>,
    /// The rule applied at each position so far.
    pub rules: Seq<Rule>,
}

/// The input character before position `i`, if any.
pub open spec fn prev_input_at(s: Seq<char>, i: int) -> Option<char> {
    if i > 0 {
        Some(s[i - 1])
    } else {
        None
    }
}

/// The input character after position `i`, if any.
pub open spec fn next_input_at(s: Seq<char>, i: int) -> Option<char> {
    if i + 1 < s.len() {
        Some(s[i + 1])
    } else {
        None
    }
}

/// The rule for position `i` of `s`, given the last kept non-glue character.
pub open spec fn rule_at(s: Seq<char>, i: int, prev_kept: Option<char>, opts: CleanOptions) -> Rule {
    decide_rule(
        s[i],
        prev_kept,
        prev_input_at(s, i),
        next_input_at(s, i),
        in_flag_sequence(s, i),
        in_bidi_embedding(s, i),
        mongolian_anchored(s, i),
        i > 0 && mongolian_anchored(s, i - 1),
        opts,
    )
}

/// One step of the pass: decide position `i` and record what happens to it.
pub open spec fn scan_step(st: ScanState, s: Seq<char>, i: int, opts: CleanOptions) -> ScanState {
    let ch = s[i];
    let r = rule_at(s, i, st.prev_kept, opts);
    if rule_keeps(r) {
        ScanState {
            prev_kept: if glue(ch as u32) {
                st.prev_kept
            } else {
                Some(ch)
            },
            out: st.out.push(ch),
            removed: st.removed,
            replaced: st.replaced,
            rules: st.rules.push(r),
        }
    } else if rule_replaces(r) {
        ScanState {
            prev_kept: Some(rule_output(r, ch)),
            out: st.out.push(rule_output(r, ch)),
            removed: st.removed,
            replaced: st.replaced.push(ch),
            rules: st.rules.push(r),
        }
    } else {
        ScanState {
            prev_kept: st.prev_kept,
            out: st.out,
            removed: st.removed.push(ch),
            replaced: st.replaced,
            rules: st.rules.push(r),
        }
    }
}

/// The pass over the first `n` characters of `s`.
pub open spec fn scan(s: Seq<char>, n: nat, opts: CleanOptions) -> ScanState
    decreases n,
{
    if n == 0 {
        ScanState {
            prev_kept: None,
            out: seq![],
            removed: seq![],
            replaced: seq![],
            rules: seq![],
        }
    } else {
        scan_step(scan(s, (n - 1) as nat, opts), s, n - 1, opts)
    }
}

/// The pass over all of `s`.
pub open spec fn layer_a(s: Seq<char>, opts: CleanOptions) -> ScanState {
    scan(s, s.len(), opts)
}

/// The rule applied at position `i` in the pass over all of `s`.
pub open spec fn final_rule(s: Seq<char>, i: int, opts: CleanOptions) -> Rule {
    layer_a(s, opts).rules[i]
}

/// Rules already decided never change as the pass goes on.
pub proof fn lemma_scan_rules_prefix(s: Seq<char>, m: nat, n: nat, opts: CleanOptions)
    requires
        m <= n,
    ensures
        scan(s, n, opts).rules.len() == n,
        scan(s, m, opts).rules == scan(s, n, opts).rules.take(m as int),
    decreases n,
{
    if n > 0 {
        lemma_scan_rules_prefix(s, (n - 1) as nat, (n - 1) as nat, opts);
        if m < n {
            lemma_scan_rules_prefix(s, m, (n - 1) as nat, opts);
            assert(scan(s, n, opts).rules.take(m as int) =~= scan(
                s,
                (n - 1) as nat,
                opts,
            ).rules.take(m as int));
        } else {
            assert(scan(s, n, opts).rules.take(m as int) =~= scan(s, n, opts).rules);
        }
    } else {
        assert(scan(s, n, opts).rules.take(m as int) =~= scan(s, n, opts).rules);
    }
}

} // verus!
