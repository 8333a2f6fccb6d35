//! Chromosome-name normalization under the six policy levels.
//!
//! The marker is the case-insensitive text "chr"; its *last* occurrence
//! anchors the token, so decorated names such as "GRCh38.chr12_random"
//! resolve to the meaningful marker. The token after the marker is a maximal
//! run of digits, or else a single letter X, Y or M (any case, reported in
//! upper case).

use vstd::prelude::*;
use crate::text::{all_digits, chars_of, decimal_value, is_digit, is_digit_exec, lemma_decimal_value_grows};

verus! {

/// The marker "chr" (any case) starts at index `i` of `s`.
pub open spec fn is_marker_at(s: Seq<char>, i: int) -> bool {
    &&& 0 <= i
    &&& i + 3 <= s.len()
    &&& (s[i] == 'c' || s[i] == 'C')
    &&& (s[i + 1] == 'h' || s[i + 1] == 'H')
    &&& (s[i + 2] == 'r' || s[i + 2] == 'R')
}

/// The largest marker start below `n`, if any.
pub open spec fn last_marker_before(s: Seq<char>, n: int) -> Option<int>
    decreases n,
{
    if n <= 0 {
        None
    } else if is_marker_at(s, n - 1) {
        Some(n - 1)
    } else {
        last_marker_before(s, n - 1)
    }
}

/// Start of the last marker occurrence in `s`.
pub open spec fn last_marker(s: Seq<char>) -> Option<int> {
    last_marker_before(s, s.len() as int)
}

/// End of the maximal digit run of `s` that starts at `i`.
pub open spec fn run_end(s: Seq<char>, i: int) -> int
    decreases s.len() - i,
{
    if 0 <= i < s.len() && is_digit(s[i]) {
        run_end(s, i + 1)
    } else {
        i
    }
}

pub open spec fn is_xym(c: char) -> bool {
    c == 'x' || c == 'X' || c == 'y' || c == 'Y' || c == 'm' || c == 'M'
}

pub open spec fn upper_xym(c: char) -> char {
    if c == 'x' || c == 'X' {
        'X'
    } else if c == 'y' || c == 'Y' {
        'Y'
    } else {
        'M'
    }
}

/// Where the token that starts at `p` ends (equal to `p` when there is none).
pub open spec fn token_end(s: Seq<char>, p: int) -> int {
    if run_end(s, p) > p {
        run_end(s, p)
    } else if 0 <= p < s.len() && is_xym(s[p]) {
        p + 1
    } else {
        p
    }
}

/// The canonical text of the token that starts at `p`.
pub open spec fn token_text(s: Seq<char>, p: int) -> Seq<char> {
    if run_end(s, p) > p {
        s.subrange(p, run_end(s, p))
    } else if 0 <= p < s.len() && is_xym(s[p]) {
        seq![upper_xym(s[p])]
    } else {
        Seq::empty()
    }
}

/// A standard human chromosome label: 1..22 (as a number), X, Y or M.
pub open spec fn is_std_token(t: Seq<char>) -> bool {
    ||| t == seq!['X']
    ||| t == seq!['Y']
    ||| t == seq!['M']
    ||| (t.len() > 0 && all_digits(t) && 1 <= decimal_value(t) <= 22)
}

/// What the token scan reports about `s`: the canonical token (if any),
/// whether anything follows the token, and whether the marker occurs.
pub open spec fn chr_token_spec(s: Seq<char>) -> (Option<Seq<char>>, bool, bool) {
    match last_marker(s) {
        None => (None, false, false),
        Some(m) => {
            let p = m + 3;
            if token_end(s, p) > p {
                (Some(token_text(s, p)), token_end(s, p) < s.len(), true)
            } else {
                (None, p < s.len(), true)
            }
        },
    }
}

/// The normalization policy: `None` rejects the name.
pub open spec fn normalize_spec(s: Seq<char>, level: u8) -> Option<Seq<char>> {
    let (tok, suffix, found) = chr_token_spec(s);
    if level == 1 {
        if found { Some(s) } else { None }
    } else if level == 2 {
        if tok is Some { Some(s) } else { None }
    } else if level == 3 {
        if tok is Some && !suffix { Some(s) } else { None }
    } else if level == 4 {
        if tok is Some && is_std_token(tok->0) {
            Some(seq!['c', 'h', 'r'] + tok->0)
        } else {
            None
        }
    } else if level == 5 {
        if tok is Some && is_std_token(tok->0) { Some(tok->0) } else { None }
    } else {
        Some(s)
    }
}

pub open spec fn opt_view(o: Option<String>) -> Option<Seq<char>> {
    match o {
        Some(s) => Some(s@),
        None => None,
    }
}

/// Result of scanning a name for its chromosome token.
pub struct ChromToken {
    /// The canonical token: a digit run, or "X", "Y" or "M".
    pub token: Option<String>,
    /// Something follows the token (or the marker, when there is no token).
    pub has_suffix: bool,
    /// The marker occurs in the name.
    pub found_marker: bool,
}

impl ChromToken {
    pub open spec fn model(&self) -> (Option<Seq<char>>, bool, bool) {
        (opt_view(self.token), self.has_suffix, self.found_marker)
    }
}

/// Start of the last marker in `s`.
fn find_last_marker(s: &Vec<char>) -> (r: Option<usize>)
    ensures
        opt_usize_int(r) == last_marker(s@),
        r matches Some(i) ==> i + 3 <= s.len(),
{
    let mut n: usize = s.len();
    while n > 0
        invariant
            n <= s.len(),
            last_marker(s@) == last_marker_before(s@, n as int),
        decreases n,
    {
        let i = n - 1;
        if s.len() >= 3 && i <= s.len() - 3 {
            let a = s[i];
            let b = s[i + 1];
            let c = s[i + 2];
            if (a == 'c' || a == 'C') && (b == 'h' || b == 'H') && (c == 'r' || c == 'R') {
                return Some(i);
            }
        }
        n = i;
    }
    None
}

pub open spec fn opt_usize_int(o: Option<usize>) -> Option<int> {
    match o {
        Some(v) => Some(v as int),
        None => None,
    }
}

/// End of the digit run of `s` starting at `p`.
pub fn digit_run_end(s: &Vec<char>, p: usize) -> (e: usize)
    requires
        p <= s.len(),
    ensures
        e as int == run_end(s@, p as int),
        p <= e <= s.len(),
{
    let mut j: usize = p;
    while j < s.len() && is_digit_exec(s[j])
        invariant
            p <= j <= s.len(),
            run_end(s@, p as int) == run_end(s@, j as int),
        decreases s.len() - j,
    {
        j = j + 1;
    }
    j
}

/// Scans `raw` for the last marker and the token after it.
pub fn extract_chr_token(raw: &str) -> (r: ChromToken)
    ensures
        r.model() == chr_token_spec(raw@),
{
    let s = chars_of(raw);
    match find_last_marker(&s) {
        None => ChromToken { token: None, has_suffix: false, found_marker: false },
        Some(m) => {
            let p = m + 3;
            let e = digit_run_end(&s, p);
            if e > p {
                let t = raw.substring_char(p, e).to_owned();
                ChromToken { token: Some(t), has_suffix: e < s.len(), found_marker: true }
            } else if p < s.len() && (s[p] == 'x' || s[p] == 'X') {
                let t = "X".to_owned();
                proof {
                    reveal_strlit("X");
                }
                assert(t@ =~= seq![upper_xym(s@[p as int])]);
                ChromToken { token: Some(t), has_suffix: p + 1 < s.len(), found_marker: true }
            } else if p < s.len() && (s[p] == 'y' || s[p] == 'Y') {
                let t = "Y".to_owned();
                proof {
                    reveal_strlit("Y");
                }
                assert(t@ =~= seq![upper_xym(s@[p as int])]);
                ChromToken { token: Some(t), has_suffix: p + 1 < s.len(), found_marker: true }
            } else if p < s.len() && (s[p] == 'm' || s[p] == 'M') {
                let t = "M".to_owned();
                proof {
                    reveal_strlit("M");
                }
                assert(t@ =~= seq![upper_xym(s@[p as int])]);
                ChromToken { token: Some(t), has_suffix: p + 1 < s.len(), found_marker: true }
            } else {
                ChromToken { token: None, has_suffix: p < s.len(), found_marker: true }
            }
        },
    }
}

/// Whether `token` is a standard human chromosome label: 1..22, X, Y or M.
pub fn is_std_human_chr_token(token: &str) -> (r: bool)
    ensures
        r == is_std_token(token@),
{
    let t = chars_of(token);
    let n = t.len();
    if n == 1 && (t[0] == 'X' || t[0] == 'Y' || t[0] == 'M') {
        assert(t@ =~= seq![t@[0]]);
        return true;
    }
    assert(t@ != seq!['X'] && t@ != seq!['Y'] && t@ != seq!['M']) by {
        if n == 1 {
            assert(seq!['X'][0] == 'X');
            assert(seq!['Y'][0] == 'Y');
            assert(seq!['M'][0] == 'M');
        }
    }
    if n == 0 {
        return false;
    }
    let mut v: u64 = 0;
    let mut i: usize = 0;
    while i < n
        invariant
            n == t.len(),
            t@ == token@,
            t@ != seq!['X'] && t@ != seq!['Y'] && t@ != seq!['M'],
            i <= n,
            v <= 22,
            v as nat == decimal_value(t@.subrange(0, i as int)),
            all_digits(t@.subrange(0, i as int)),
        decreases n - i,
    {
        let c = t[i];
        if !is_digit_exec(c) {
            assert(!all_digits(t@)) by {
                assert(!is_digit(t@[i as int]));
            }
            return false;
        }
        assert(t@.subrange(0, i + 1).drop_last() =~= t@.subrange(0, i as int));
        v = v * 10 + (c as u64 - '0' as u64);
        assert(all_digits(t@.subrange(0, i + 1))) by {
            assert forall|k: int| 0 <= k < i + 1 implies is_digit(#[trigger] t@.subrange(0, i + 1)[k]) by {
                if k < i {
                    assert(t@.subrange(0, i + 1)[k] == t@.subrange(0, i as int)[k]);
                }
            }
        }
        i = i + 1;
        if v > 22 {
            proof {
                lemma_decimal_value_grows(t@, i as int);
            }
            return false;
        }
    }
    assert(t@.subrange(0, n as int) =~= t@);
    v >= 1
}

/// Applies the normalization policy at `level` to `raw`: the kept (and
/// possibly rewritten) name, or `None` when the policy rejects it.
/// Levels above five behave as level zero.
pub fn apply_ignore_rules(raw: &str, level: u8) -> (r: Option<String>)
    ensures
        opt_view(r) == normalize_spec(raw@, level),
{
    if level == 0 || level > 5 {
        return Some(raw.to_owned());
    }
    let ct = extract_chr_token(raw);
    if level == 1 {
        if ct.found_marker { Some(raw.to_owned()) } else { None }
    } else if level == 2 {
        if ct.token.is_some() { Some(raw.to_owned()) } else { None }
    } else if level == 3 {
        if ct.token.is_some() && !ct.has_suffix { Some(raw.to_owned()) } else { None }
    } else {
        match ct.token {
            None => None,
            Some(t) => {
                if !is_std_human_chr_token(t.as_str()) {
                    None
                } else if level == 4 {
                    let mut out = "chr".to_owned();
                    out.append(t.as_str());
                    proof {
                        reveal_strlit("chr");
                    }
                    assert(out@ =~= seq!['c', 'h', 'r'] + t@);
                    Some(out)
                } else {
                    Some(t)
                }
            },
        }
    }
}

/// Level zero keeps every name as it is.
pub proof fn lemma_level_zero_identity(raw: Seq<char>)
    ensures
        normalize_spec(raw, 0) == Some(raw),
{
}

proof fn lemma_run_end_digits(s: Seq<char>, i: int)
    requires
        0 <= i <= s.len(),
        forall|k: int| i <= k < s.len() ==> is_digit(#[trigger] s[k]),
    ensures
        run_end(s, i) == s.len(),
    decreases s.len() - i,
{
    if i < s.len() {
        lemma_run_end_digits(s, i + 1);
    }
}

proof fn lemma_marker_only_at_front(s: Seq<char>, n: int)
    requires
        1 <= n <= s.len(),
        is_marker_at(s, 0),
        forall|i: int| 1 <= i < s.len() ==> !is_marker_at(s, i),
    ensures
        last_marker_before(s, n) == Some(0int),
    decreases n,
{
    if n > 1 {
        lemma_marker_only_at_front(s, n - 1);
    }
}

/// The text a level-four normalization produces holds no tab.
pub proof fn lemma_std_name_no_tab(t: Seq<char>)
    requires
        is_std_token(t),
    ensures
        forall|j: int| 0 <= j < (seq!['c', 'h', 'r'] + t).len() ==> (seq!['c', 'h', 'r'] + t)[j] != '\t',
{
    let c = seq!['c', 'h', 'r'] + t;
    assert forall|j: int| 0 <= j < c.len() implies c[j] != '\t' by {
        if j >= 3 {
            assert(c[j] == t[j - 3]);
            if !(t.len() > 0 && all_digits(t)) {
                assert(t.len() == 1);
            } else {
                assert(is_digit(t[j - 3]));
            }
        }
    }
}

/// A name the policy produced is kept unchanged when normalized again at
/// the same level (every level but five, whose output has no marker).
pub proof fn lemma_renormalize(x: Seq<char>, level: u8)
    requires
        level != 5,
        normalize_spec(x, level) is Some,
    ensures
        normalize_spec(normalize_spec(x, level)->0, level) == normalize_spec(x, level),
{
    if level == 4 {
        let t = chr_token_spec(x).0->0;
        let c = seq!['c', 'h', 'r'] + t;
        assert(normalize_spec(x, level) == Some(c));
        let digits = t.len() > 0 && all_digits(t);
        assert(c.len() >= 4);
        assert forall|i: int| 1 <= i < c.len() implies !is_marker_at(c, i) by {
            if i >= 3 {
                assert(c[i] == t[i - 3]);
                if digits {
                    assert(is_digit(t[i - 3]));
                } else {
                    assert(t.len() == 1);
                }
            }
        }
        lemma_marker_only_at_front(c, c.len() as int);
        if digits {
            assert forall|k: int| 3 <= k < c.len() implies is_digit(#[trigger] c[k]) by {
                assert(c[k] == t[k - 3]);
            }
            lemma_run_end_digits(c, 3);
            assert(c.subrange(3, c.len() as int) =~= t);
        } else {
            assert(t.len() == 1);
            assert(c[3] == t[0]);
            assert(!is_digit(c[3]));
            assert(seq![upper_xym(c[3])] =~= t);
        }
        assert(chr_token_spec(c).0 == Some(t));
    }
}

} // verus!
