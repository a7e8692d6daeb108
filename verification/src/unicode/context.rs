//! Structural context: complete subdivision-flag tag sequences and matched
//! bidi embedding pairs.

use vstd::prelude::*;

verus! {

pub open spec fn flag_tag_char(c: char) -> bool {
    0xE0020 <= c as u32 <= 0xE007E
}

/// `s[i]` is U+1F3F4 WAVING BLACK FLAG, `s[i+1..j]` is a non-empty run of tag
/// characters U+E0020..U+E007E, and `s[j]` is U+E007F CANCEL TAG.
pub open spec fn flag_block(s: Seq<char>, i: int, j: int) -> bool {
    &&& 0 <= i
    &&& i + 1 < j < s.len()
    &&& s[i] as u32 == 0x1F3F4
    &&& s[j] as u32 == 0xE007F
    &&& forall|m: int| i < m < j ==> flag_tag_char(#[trigger] s[m])
}

/// Position `k` holds a tag character of a complete subdivision-flag sequence.
pub open spec fn in_flag_sequence(s: Seq<char>, k: int) -> bool {
    exists|i: int, j: int| #[trigger] flag_block(s, i, j) && i < k <= j
}

proof fn lemma_flag_block_end_unique(s: Seq<char>, i: int, j1: int, j2: int)
    requires
        flag_block(s, i, j1),
        flag_block(s, i, j2),
    ensures
        j1 == j2,
{
    if j1 < j2 {
        assert(flag_tag_char(s[j1]));
    }
    if j2 < j1 {
        assert(flag_tag_char(s[j2]));
    }
}

/// Indices belonging to complete subdivision-flag tag sequences, as a
/// membership vector over `chars`.
pub fn valid_flag_tag_indices(chars: &Vec<char>) -> (valid: Vec<bool>)
    ensures
        valid@.len() == chars@.len(),
        forall|k: int| 0 <= k < chars@.len() ==> valid@[k] == in_flag_sequence(chars@, k),
{
    let n = chars.len();
    let ghost s = chars@;
    let mut valid: Vec<bool> = vec![false; n];
    let mut i: usize = 0;
    while i < n
        invariant
            n == s.len(),
            s == chars@,
            i <= n,
            valid@.len() == n,
            forall|k: int| 0 <= k < i ==> valid@[k] == in_flag_sequence(s, k),
            forall|k: int| i <= k < n ==> !valid@[k],
            i < n ==> !in_flag_sequence(s, i as int),
        decreases n - i,
    {
        if chars[i] as u32 != 0x1F3F4 {
            proof {
                if i + 1 < n && in_flag_sequence(s, i + 1) {
                    let (a, b) = choose|a: int, b: int| #[trigger] flag_block(s, a, b) && a < i + 1 <= b;
                    assert(a != i);
                    assert(flag_block(s, a, b) && a < i <= b);
                }
            }
            i += 1;
            continue;
        }
        let mut j = i + 1;
        while j < n && 0xE0020 <= chars[j] as u32 && chars[j] as u32 <= 0xE007E
            invariant
                n == s.len(),
                s == chars@,
                i < j <= n,
                forall|m: int| i < m < j ==> flag_tag_char(#[trigger] s[m]),
            decreases n - j,
        {
            j += 1;
        }
        if j > i + 1 && j < n && chars[j] as u32 == 0xE007F {
            assert(flag_block(s, i as int, j as int));
            let mut k = i + 1;
            while k <= j
                invariant
                    n == s.len(),
                    s == chars@,
                    flag_block(s, i as int, j as int),
                    i < k <= j + 1,
                    j < n,
                    valid@.len() == n,
                    forall|m: int| 0 <= m < i ==> valid@[m] == in_flag_sequence(s, m),
                    !valid@[i as int],
                    forall|m: int| i < m < k ==> valid@[m],
                    forall|m: int| k <= m < n ==> !valid@[m],
                decreases j + 1 - k,
            {
                valid.set(k, true);
                k += 1;
            }
            proof {
                assert forall|m: int| 0 <= m < j + 1 implies valid@[m] == in_flag_sequence(s, m) by {
                    if i < m <= j {
                        assert(flag_block(s, i as int, j as int) && i < m <= j);
                    }
                }
                if j + 1 < n && in_flag_sequence(s, j + 1) {
                    let (a, b) = choose|a: int, b: int| #[trigger] flag_block(s, a, b) && a < j + 1 <= b;
                    if a == i {
                        lemma_flag_block_end_unique(s, a, b, j as int);
                    } else if a < i {
                        assert(flag_block(s, a, b) && a < i <= b);
                    } else {
                        assert(flag_tag_char(s[a]));
                    }
                }
            }
            i = j + 1;
        } else {
            proof {
                if i + 1 < n && in_flag_sequence(s, i + 1) {
                    let (a, b) = choose|a: int, b: int| #[trigger] flag_block(s, a, b) && a < i + 1 <= b;
                    if a == i {
                        if b < j {
                            assert(flag_tag_char(s[b]));
                        }
                        if j < b {
                            assert(flag_tag_char(s[j as int]));
                        }
                    } else {
                        assert(flag_block(s, a, b) && a < i <= b);
                    }
                }
            }
            i += 1;
        }
    }
    valid
}

pub open spec fn embedding_opener(cp: u32) -> bool {
    cp == 0x202A || cp == 0x202B
}

pub open spec fn bidi_push(cp: u32) -> bool {
    cp == 0x202A || cp == 0x202B || cp == 0x202D || cp == 0x202E
}

/// The bidi stack (opener code point, index) and the set of matched
/// embedding indices after reading the first `n` characters of `s`: openers
/// (LRE, RLE, LRO, RLO) are pushed; a PDF pops the top, and the pair counts as
/// a matched embedding when the popped opener is LRE or RLE.
pub open spec fn bidi_scan(s: Seq<char>, n: nat) -> (Seq<(u32, int)>, Set<int>)
    decreases n,
{
    if n == 0 || n > s.len() {
        (seq![], Set::empty())
    } else {
        let prev = bidi_scan(s, (n - 1) as nat);
        let stack = prev.0;
        let valid = prev.1;
        let cp = s[n - 1] as u32;
        if bidi_push(cp) {
            (stack.push((cp, n - 1)), valid)
        } else if cp == 0x202C && stack.len() > 0 {
            let top = stack.last();
            if embedding_opener(top.0) {
                (stack.drop_last(), valid.insert(top.1).insert(n - 1))
            } else {
                (stack.drop_last(), valid)
            }
        } else {
            (stack, valid)
        }
    }
}

/// Position `k` belongs to a complete LRE/RLE ... PDF pair (overrides excluded).
pub open spec fn in_bidi_embedding(s: Seq<char>, k: int) -> bool {
    bidi_scan(s, s.len()).1.contains(k)
}

pub proof fn lemma_bidi_scan_bounds(s: Seq<char>, n: nat)
    requires
        n <= s.len(),
    ensures
        forall|k: int| bidi_scan(s, n).1.contains(k) ==> 0 <= k < n,
        forall|m: int|
            0 <= m < bidi_scan(s, n).0.len() ==> 0 <= (#[trigger] bidi_scan(s, n).0[m]).1 < n,
    decreases n,
{
    if n > 0 {
        lemma_bidi_scan_bounds(s, (n - 1) as nat);
        let prev = bidi_scan(s, (n - 1) as nat);
        let cur = bidi_scan(s, n);
        assert forall|m: int| 0 <= m < cur.0.len() implies 0 <= (#[trigger] cur.0[m]).1 < n by {
            if m < prev.0.len() {
                assert(0 <= prev.0[m].1 < n - 1);
            }
        }
        assert forall|k: int| cur.1.contains(k) implies 0 <= k < n by {
            if !prev.1.contains(k) && prev.0.len() > 0 {
                assert(0 <= prev.0[prev.0.len() - 1].1 < n - 1);
            }
        }
    }
}

/// Stack entries record an opener and where it stands; matched indices hold
/// a PDF or an LRE/RLE; matched sets only grow.
pub proof fn lemma_bidi_scan_shape(s: Seq<char>, n: nat)
    requires
        n <= s.len(),
    ensures
        forall|m: int|
            0 <= m < bidi_scan(s, n).0.len() ==> {
                let e = #[trigger] bidi_scan(s, n).0[m];
                0 <= e.1 < n && s[e.1] as u32 == e.0 && bidi_push(e.0)
            },
        forall|k: int|
            #[trigger] bidi_scan(s, n).1.contains(k) ==> 0 <= k < n && (s[k] as u32 == 0x202C
                || embedding_opener(s[k] as u32)),
    decreases n,
{
    if n > 0 {
        lemma_bidi_scan_shape(s, (n - 1) as nat);
        let prev = bidi_scan(s, (n - 1) as nat);
        let cur = bidi_scan(s, n);
        assert forall|m: int| 0 <= m < cur.0.len() implies {
            let e = #[trigger] cur.0[m];
            0 <= e.1 < n && s[e.1] as u32 == e.0 && bidi_push(e.0)
        } by {
            if m < prev.0.len() {
                let e = prev.0[m];
                assert(0 <= e.1 < n - 1 && s[e.1] as u32 == e.0 && bidi_push(e.0));
            }
        }
        assert forall|k: int| #[trigger] cur.1.contains(k) implies 0 <= k < n && (s[k] as u32
            == 0x202C || embedding_opener(s[k] as u32)) by {
            if !prev.1.contains(k) && prev.0.len() > 0 {
                let e = prev.0[prev.0.len() - 1];
                assert(0 <= e.1 < n - 1 && s[e.1] as u32 == e.0 && bidi_push(e.0));
            }
        }
    }
}

/// Matched sets only grow.
pub proof fn lemma_bidi_scan_monotone(s: Seq<char>, m: nat, n: nat)
    requires
        m <= n <= s.len(),
    ensures
        bidi_scan(s, m).1.subset_of(bidi_scan(s, n).1),
    decreases n,
{
    if m < n {
        lemma_bidi_scan_monotone(s, m, (n - 1) as nat);
    }
}

/// A PDF is matched by the end exactly when it is matched by its own step.
pub proof fn lemma_bidi_pdf_decided(s: Seq<char>, i: nat, n: nat)
    requires
        i < n <= s.len(),
        s[i as int] as u32 == 0x202C,
    ensures
        bidi_scan(s, n).1.contains(i as int) == bidi_scan(s, i + 1).1.contains(i as int),
    decreases n,
{
    if n > i + 1 {
        lemma_bidi_pdf_decided(s, i, (n - 1) as nat);
        lemma_bidi_scan_shape(s, (n - 1) as nat);
        let prev = bidi_scan(s, (n - 1) as nat);
        if prev.0.len() > 0 {
            let e = prev.0[prev.0.len() - 1];
            assert(s[e.1] as u32 == e.0 && bidi_push(e.0));
        }
    }
}

/// Indices belonging to complete LRE/RLE ... PDF pairs, excluding overrides,
/// as a membership vector over `chars`.
pub fn valid_bidi_embedding_indices(chars: &Vec<char>) -> (valid: Vec<bool>)
    ensures
        valid@.len() == chars@.len(),
        forall|k: int| 0 <= k < chars@.len() ==> valid@[k] == in_bidi_embedding(chars@, k),
{
    let n = chars.len();
    let ghost s = chars@;
    let mut valid: Vec<bool> = vec![false; n];
    let mut stack: Vec<(u32, usize)> = Vec::new();
    let mut index: usize = 0;
    while index < n
        invariant
            n == s.len(),
            s == chars@,
            index <= n,
            valid@.len() == n,
            stack@.len() == bidi_scan(s, index as nat).0.len(),
            forall|m: int|
                0 <= m < stack@.len() ==> (#[trigger] stack@[m]).0 == bidi_scan(s, index as nat).0[m].0
                    && stack@[m].1 as int == bidi_scan(s, index as nat).0[m].1,
            forall|k: int| 0 <= k < n ==> valid@[k] == bidi_scan(s, index as nat).1.contains(k),
        decreases n - index,
    {
        proof {
            lemma_bidi_scan_bounds(s, index as nat);
        }
        let cp = chars[index] as u32;
        if cp == 0x202A || cp == 0x202B || cp == 0x202D || cp == 0x202E {
            stack.push((cp, index));
        } else if cp == 0x202C {
            if let Some((opener, opener_index)) = stack.pop() {
                if opener == 0x202A || opener == 0x202B {
                    valid.set(opener_index, true);
                    valid.set(index, true);
                }
            }
        }
        index += 1;
        proof {
            let st = bidi_scan(s, index as nat);
            assert(stack@.len() == st.0.len());
            assert forall|k: int| 0 <= k < n implies valid@[k] == st.1.contains(k) by {}
        }
    }
    valid
}

} // verus!
