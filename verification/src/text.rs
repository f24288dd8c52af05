//! Plain-text utilities: decimal numbers, splitting and joining.
//!
//! Everything the two scheduler parsers do to raw command output reduces to
//! the operations in this module, so their contracts carry the whole load of
//! the parsing proofs.

use vstd::prelude::*;

verus! {

/// A decimal digit.
pub open spec fn is_digit(c: char) -> bool {
    '0' <= c && c <= '9'
}

/// Numeric value of one digit.
pub open spec fn digit_val(c: char) -> nat
    recommends
        is_digit(c),
{
    (c as nat - '0' as nat) as nat
}

/// Every character of `s` is a decimal digit.
pub open spec fn all_digits(s: Seq<char>) -> bool {
    forall|i: int| 0 <= i < s.len() ==> is_digit(#[trigger] s[i])
}

/// The number that the digit string `s` denotes, most significant digit first.
pub open spec fn dec_val(s: Seq<char>) -> nat
    decreases s.len(),
{
    if s.len() == 0 {
        0
    } else {
        dec_val(s.drop_last()) * 10 + digit_val(s.last())
    }
}

/// A longer digit string never denotes a smaller number than its prefix.
proof fn lemma_dec_val_prefix(s: Seq<char>, i: int)
    requires
        0 <= i <= s.len(),
    ensures
        dec_val(s.subrange(0, i)) <= dec_val(s),
    decreases s.len() - i,
{
    if i < s.len() {
        lemma_dec_val_prefix(s, i + 1);
        assert(s.subrange(0, i + 1).drop_last() =~= s.subrange(0, i));
        assert(dec_val(s.subrange(0, i)) <= dec_val(s.subrange(0, i + 1)));
    } else {
        assert(s.subrange(0, i) =~= s);
    }
}

/// Parses an unsigned decimal integer. Returns the denoted value exactly when
/// `s` is a non-empty string of digits whose value fits in a `u64`.
pub fn parse_u64(s: &str) -> (r: Option<u64>)
    ensures
        match r {
            Some(v) => s@.len() > 0 && all_digits(s@) && v == dec_val(s@),
            None => s@.len() == 0 || !all_digits(s@) || dec_val(s@) > u64::MAX,
        },
{
    if s.unicode_len() == 0 {
        return None;
    }
    match parse_digits(s) {
        Ok(v) => Some(v),
        Err(_) => None,
    }
}

/// Character-for-character string equality.
pub fn str_eq(a: &str, b: &str) -> (r: bool)
    ensures
        r == (a@ == b@),
{
    let na: usize = a.unicode_len();
    let nb: usize = b.unicode_len();
    if na != nb {
        return false;
    }
    let mut i: usize = 0;
    while i < na
        invariant
            0 <= i <= na,
            na == a@.len(),
            na == b@.len(),
            forall|j: int| 0 <= j < i ==> a@[j] == b@[j],
        decreases na - i,
    {
        if a.get_char(i) != b.get_char(i) {
            return false;
        }
        i = i + 1;
    }
    proof {
        assert(a@ =~= b@);
    }
    true
}

/// `pat` occurs in `s` starting at index `i`.
pub open spec fn occurs_at(s: Seq<char>, pat: Seq<char>, i: int) -> bool {
    0 <= i && i + pat.len() <= s.len() && s.subrange(i, i + pat.len() as int) == pat
}

/// `s` has an occurrence of `pat` somewhere.
pub open spec fn contains_seq(s: Seq<char>, pat: Seq<char>) -> bool {
    exists|i: int| occurs_at(s, pat, i)
}

/// Does `pat` occur in `s` at index `at`?
pub fn matches_at(s: &str, n: usize, pat: &str, at: usize) -> (r: bool)
    requires
        n == s@.len(),
        at <= n,
    ensures
        r == occurs_at(s@, pat@, at as int),
{
    let m: usize = pat.unicode_len();
    if m > n - at {
        return false;
    }
    let mut j: usize = 0;
    while j < m
        invariant
            0 <= j <= m,
            m == pat@.len(),
            n == s@.len(),
            at + m <= n,
            forall|k: int| 0 <= k < j ==> s@[at + k] == pat@[k],
        decreases m - j,
    {
        if s.get_char(at + j) != pat.get_char(j) {
            assert(s@.subrange(at as int, at + m) != pat@) by {
                assert(s@.subrange(at as int, at + m)[j as int] != pat@[j as int]);
            }
            return false;
        }
        j = j + 1;
    }
    proof {
        assert(s@.subrange(at as int, at + m) =~= pat@);
    }
    true
}

/// Index of the leftmost occurrence of `pat` in `s`, if any.
pub fn find_sub(s: &str, pat: &str) -> (r: Option<usize>)
    requires
        pat@.len() > 0,
    ensures
        match r {
            Some(i) => occurs_at(s@, pat@, i as int) && forall|j: int|
                0 <= j < i ==> !occurs_at(s@, pat@, j),
            None => !contains_seq(s@, pat@),
        },
{
    let n: usize = s.unicode_len();
    let mut i: usize = 0;
    while i < n
        invariant
            0 <= i <= n,
            n == s@.len(),
            pat@.len() > 0,
            forall|j: int| 0 <= j < i ==> !occurs_at(s@, pat@, j),
        decreases n - i,
    {
        if matches_at(s, n, pat, i) {
            return Some(i);
        }
        i = i + 1;
    }
    assert(forall|j: int| occurs_at(s@, pat@, j) ==> 0 <= j < n);
    None
}

/// Runs whether every character of `s` is a decimal digit.
pub fn is_digits(s: &str) -> (r: bool)
    ensures
        r == all_digits(s@),
{
    let n: usize = s.unicode_len();
    let mut i: usize = 0;
    while i < n
        invariant
            0 <= i <= n,
            n == s@.len(),
            forall|j: int| 0 <= j < i ==> is_digit(#[trigger] s@[j]),
        decreases n - i,
    {
        let c: char = s.get_char(i);
        if c < '0' || c > '9' {
            return false;
        }
        i = i + 1;
    }
    true
}

/// `s` begins with `pat`.
pub fn starts_with(s: &str, pat: &str) -> (r: bool)
    ensures
        r == occurs_at(s@, pat@, 0),
{
    let n: usize = s.unicode_len();
    matches_at(s, n, pat, 0)
}

/// `parts` with its first element extended by `c` at the front.
pub open spec fn prepend_first(c: char, parts: Seq<Seq<char>>) -> Seq<Seq<char>>
    recommends
        parts.len() > 0,
{
    seq![seq![c] + parts[0]] + parts.drop_first()
}

/// The pieces of `s` between successive leftmost occurrences of `sep`,
/// exactly as `str::split` yields them.
pub open spec fn spec_split(s: Seq<char>, sep: Seq<char>) -> Seq<Seq<char>>
    decreases s.len(),
{
    if sep.len() == 0 || s.len() < sep.len() {
        seq![s]
    } else if s.subrange(0, sep.len() as int) == sep {
        seq![Seq::<char>::empty()] + spec_split(s.skip(sep.len() as int), sep)
    } else {
        prepend_first(s[0], spec_split(s.skip(1), sep))
    }
}

/// A split has at least one piece.
pub proof fn lemma_split_len(s: Seq<char>, sep: Seq<char>)
    ensures
        spec_split(s, sep).len() > 0,
    decreases s.len(),
{
    if !(sep.len() == 0 || s.len() < sep.len()) {
        if s.subrange(0, sep.len() as int) == sep {
            lemma_split_len(s.skip(sep.len() as int), sep);
        } else {
            lemma_split_len(s.skip(1), sep);
        }
    }
}

/// If `sep` occurs nowhere in `s`, the split is `s` alone.
pub proof fn lemma_split_none(s: Seq<char>, sep: Seq<char>)
    requires
        sep.len() > 0,
        !contains_seq(s, sep),
    ensures
        spec_split(s, sep) == seq![s],
    decreases s.len(),
{
    if s.len() >= sep.len() {
        assert(!occurs_at(s, sep, 0));
        assert forall|j: int| occurs_at(s.skip(1), sep, j) implies occurs_at(s, sep, j + 1) by {
            assert(s.subrange(j + 1, j + 1 + sep.len() as int) =~= s.skip(1).subrange(
                j,
                j + sep.len() as int,
            ));
        }
        lemma_split_none(s.skip(1), sep);
        assert(prepend_first(s[0], seq![s.skip(1)]) =~= seq![seq![s[0]] + s.skip(1)]);
        assert(seq![s[0]] + s.skip(1) =~= s);
        assert(spec_split(s, sep) =~= seq![s]);
    }
}

/// Splitting at the leftmost occurrence: the part before it is the first
/// piece, and the rest splits recursively.
pub proof fn lemma_split_at_first(s: Seq<char>, sep: Seq<char>, i: int)
    requires
        sep.len() > 0,
        occurs_at(s, sep, i),
        forall|j: int| 0 <= j < i ==> !occurs_at(s, sep, j),
    ensures
        spec_split(s, sep) == seq![s.subrange(0, i)] + spec_split(
            s.skip(i + sep.len() as int),
            sep,
        ),
    decreases i,
{
    if i == 0 {
        assert(s.subrange(0, sep.len() as int) == sep);
        assert(seq![Seq::<char>::empty()] =~~= seq![s.subrange(0, 0)]);
    } else {
        assert(!occurs_at(s, sep, 0));
        assert(s.subrange(0, sep.len() as int) != sep);
        let t = s.skip(1);
        assert(occurs_at(t, sep, i - 1)) by {
            assert(t.subrange(i - 1, i - 1 + sep.len() as int) =~= s.subrange(
                i,
                i + sep.len() as int,
            ));
        }
        assert(forall|j: int| 0 <= j < i - 1 ==> !occurs_at(t, sep, j)) by {
            assert forall|j: int| 0 <= j < i - 1 && occurs_at(t, sep, j) implies false by {
                assert(s.subrange(j + 1, j + 1 + sep.len() as int) =~= t.subrange(
                    j,
                    j + sep.len() as int,
                ));
                assert(occurs_at(s, sep, j + 1));
            }
        }
        lemma_split_at_first(t, sep, i - 1);
        lemma_split_len(t.skip(i - 1 + sep.len() as int), sep);
        assert(t.skip(i - 1 + sep.len() as int) =~= s.skip(i + sep.len() as int));
        assert(seq![s[0]] + t.subrange(0, i - 1) =~= s.subrange(0, i));
        assert(prepend_first(
            s[0],
            seq![t.subrange(0, i - 1)] + spec_split(s.skip(i + sep.len() as int), sep),
        ) =~= seq![s.subrange(0, i)] + spec_split(s.skip(i + sep.len() as int), sep));
    }
}

/// Splits `s` on every leftmost occurrence of `sep`.
pub fn split_str(s: &str, sep: &str) -> (r: Vec<String>)
    requires
        sep@.len() > 0,
    ensures
        r.deep_view() == spec_split(s@, sep@),
        r.len() > 0,
{
    let n: usize = s.unicode_len();
    let sep_len: usize = sep.unicode_len();
    let mut out: Vec<String> = Vec::new();
    let mut pos: usize = 0;
    proof {
        assert(s@.skip(0) =~= s@);
        assert(out.deep_view() + spec_split(s@, sep@) =~= spec_split(s@, sep@));
    }
    loop
        invariant
            0 <= pos <= n,
            n == s@.len(),
            sep_len == sep@.len(),
            sep@.len() > 0,
            spec_split(s@, sep@) == out.deep_view() + spec_split(s@.skip(pos as int), sep@),
        decreases n - pos,
    {
        // Search for the next separator from `pos` on.
        let tail: &str = s.substring_char(pos, n);
        match find_sub(tail, sep) {
            Some(k) => {
                let piece: String = s.substring_char(pos, pos + k).to_owned();
                let ghost pre_dv = out.deep_view();
                let ghost pv = piece@;
                proof {
                    assert(tail@.subrange(0, k as int) =~= s@.subrange(pos as int, pos + k));
                    lemma_split_at_first(s@.skip(pos as int), sep@, k as int);
                    assert(s@.skip(pos as int).skip(k + sep@.len() as int) =~= s@.skip(
                        pos + k + sep@.len() as int,
                    ));
                    assert(pre_dv + (seq![pv] + spec_split(
                        s@.skip(pos + k + sep@.len() as int),
                        sep@,
                    )) =~= (pre_dv + seq![pv]) + spec_split(
                        s@.skip(pos + k + sep@.len() as int),
                        sep@,
                    ));
                }
                out.push(piece);
                pos = pos + k + sep_len;
                proof {
                    assert(out.deep_view() =~= pre_dv.push(pv));
                }
            },
            None => {
                let piece: String = s.substring_char(pos, n).to_owned();
                proof {
                    lemma_split_none(s@.skip(pos as int), sep@);
                    assert(out.deep_view() + seq![piece@] =~= out.deep_view().push(piece@));
                }
                out.push(piece);
                proof {
                    assert(spec_split(s@, sep@) =~= out.deep_view());
                }
                return out;
            },
        }
    }
}

/// The parts joined with `sep` between successive ones.
pub open spec fn spec_join(parts: Seq<Seq<char>>, sep: Seq<char>) -> Seq<char>
    decreases parts.len(),
{
    if parts.len() == 0 {
        Seq::empty()
    } else if parts.len() == 1 {
        parts[0]
    } else {
        parts[0] + sep + spec_join(parts.drop_first(), sep)
    }
}

/// Joins the parts with `sep` between successive ones.
pub fn join_strs(parts: &Vec<String>, sep: &str) -> (r: String)
    ensures
        r@ == spec_join(parts.deep_view(), sep@),
{
    let mut out = String::new();
    let n: usize = parts.len();
    if n == 0 {
        return out;
    }
    let mut i: usize = 0;
    proof {
        assert(parts.deep_view().skip(0) =~= parts.deep_view());
        assert(out@ + spec_join(parts.deep_view(), sep@) =~= spec_join(parts.deep_view(), sep@));
    }
    while i < n
        invariant
            0 <= i <= n,
            n == parts.len(),
            spec_join(parts.deep_view(), sep@) == out@ + spec_join(
                parts.deep_view().skip(i as int),
                sep@,
            ),
        decreases n - i,
    {
        proof {
            let rest = parts.deep_view().skip(i as int);
            if i + 1 < n {
                assert(rest.drop_first() =~= parts.deep_view().skip(i + 1));
            } else {
                assert(parts.deep_view().skip(i + 1) =~= Seq::<Seq<char>>::empty());
            }
        }
        out.append(parts[i].as_str());
        i = i + 1;
        if i < n {
            out.append(sep);
        }
    }
    proof {
        assert(spec_join(parts.deep_view().skip(n as int), sep@) =~= Seq::<char>::empty());
    }
    out
}

/// `c` appears nowhere in `p`.
pub open spec fn avoids_char(p: Seq<char>, c: char) -> bool {
    forall|i: int| 0 <= i < p.len() ==> p[i] != c
}

/// Splitting undoes joining, as long as no part starts a separator:
/// no part may contain the separator's first character.
pub proof fn lemma_split_join(parts: Seq<Seq<char>>, sep: Seq<char>)
    requires
        sep.len() > 0,
        parts.len() > 0,
        forall|k: int| 0 <= k < parts.len() ==> avoids_char(#[trigger] parts[k], sep[0]),
    ensures
        spec_split(spec_join(parts, sep), sep) == parts,
    decreases parts.len(),
{
    let s = spec_join(parts, sep);
    if parts.len() == 1 {
        assert(s == parts[0]);
        assert forall|j: int| !occurs_at(s, sep, j) by {
            if occurs_at(s, sep, j) {
                assert(s.subrange(j, j + sep.len() as int)[0] == sep[0]);
                assert(s[j] == sep[0]);
            }
        }
        lemma_split_none(s, sep);
        assert(seq![s] =~= parts);
    } else {
        let p0 = parts[0];
        let rest = parts.drop_first();
        assert(s == p0 + sep + spec_join(rest, sep));
        let at = p0.len() as int;
        assert(occurs_at(s, sep, at)) by {
            assert(s.subrange(at, at + sep.len() as int) =~= sep);
        }
        assert forall|j: int| 0 <= j < at implies !occurs_at(s, sep, j) by {
            if occurs_at(s, sep, j) {
                assert(s.subrange(j, j + sep.len() as int)[0] == sep[0]);
                assert(s[j] == sep[0]);
                assert(p0[j] == sep[0]);
            }
        }
        lemma_split_at_first(s, sep, at);
        assert(s.subrange(0, at) =~= p0);
        assert(s.skip(at + sep.len() as int) =~= spec_join(rest, sep));
        assert(forall|k: int|
            0 <= k < rest.len() ==> avoids_char(#[trigger] rest[k], sep[0])) by {
            assert(forall|k: int| 0 <= k < rest.len() ==> rest[k] == parts[k + 1]);
        }
        lemma_split_join(rest, sep);
        assert(seq![p0] + rest =~= parts);
    }
}

/// ASCII whitespace, as `char::is_ascii_whitespace` has it.
pub open spec fn is_space(c: char) -> bool {
    c == ' ' || c == '\t' || c == '\n' || c == '\u{0c}' || c == '\r'
}

/// Runs whether `c` is ASCII whitespace.
pub fn is_space_char(c: char) -> (r: bool)
    ensures
        r == is_space(c),
{
    c == ' ' || c == '\t' || c == '\n' || c == '\u{0c}' || c == '\r'
}

/// The maximal whitespace-free words of `s`, in order, as
/// `str::split_ascii_whitespace` yields them.
pub open spec fn spec_split_ws(s: Seq<char>) -> Seq<Seq<char>>
    decreases s.len(),
{
    if s.len() == 0 {
        Seq::empty()
    } else if is_space(s[0]) {
        spec_split_ws(s.skip(1))
    } else if s.len() == 1 || is_space(s[1]) {
        seq![seq![s[0]]] + spec_split_ws(s.skip(1))
    } else {
        prepend_first(s[0], spec_split_ws(s.skip(1)))
    }
}

/// A word run of length `e` at the front of `s` is the first word.
proof fn lemma_ws_word(s: Seq<char>, e: int)
    requires
        0 < e <= s.len(),
        forall|i: int| 0 <= i < e ==> !is_space(#[trigger] s[i]),
        e == s.len() || is_space(s[e]),
    ensures
        spec_split_ws(s) == seq![s.subrange(0, e)] + spec_split_ws(s.skip(e)),
    decreases e,
{
    if e == 1 {
        assert(seq![s[0]] =~= s.subrange(0, 1));
    } else {
        let t = s.skip(1);
        assert(forall|i: int| 0 <= i < e - 1 ==> !is_space(#[trigger] t[i]));
        assert(e - 1 == t.len() || is_space(t[e - 1]));
        lemma_ws_word(t, e - 1);
        assert(spec_split_ws(t).len() > 0) by {
            assert(spec_split_ws(t.skip(e - 1)).len() >= 0);
        }
        assert(t.skip(e - 1) =~= s.skip(e));
        assert(seq![s[0]] + t.subrange(0, e - 1) =~= s.subrange(0, e));
        assert(prepend_first(s[0], seq![t.subrange(0, e - 1)] + spec_split_ws(s.skip(e))) =~= seq![
            s.subrange(0, e),
        ] + spec_split_ws(s.skip(e)));
    }
}

/// Splits `s` into its maximal whitespace-free words.
pub fn split_ws(s: &str) -> (r: Vec<String>)
    ensures
        r.deep_view() == spec_split_ws(s@),
{
    let n: usize = s.unicode_len();
    let mut out: Vec<String> = Vec::new();
    let mut pos: usize = 0;
    proof {
        assert(s@.skip(0) =~= s@);
        assert(out.deep_view() + spec_split_ws(s@) =~= spec_split_ws(s@));
    }
    while pos < n
        invariant
            0 <= pos <= n,
            n == s@.len(),
            spec_split_ws(s@) == out.deep_view() + spec_split_ws(s@.skip(pos as int)),
        decreases n - pos,
    {
        let c = s.get_char(pos);
        if is_space_char(c) {
            proof {
                assert(s@.skip(pos as int).skip(1) =~= s@.skip(pos + 1));
            }
            pos = pos + 1;
        } else {
            // Scan to the end of the word.
            let start: usize = pos;
            let mut e: usize = pos + 1;
            while e < n
                invariant
                    start < e <= n,
                    n == s@.len(),
                    forall|i: int| start <= i < e ==> !is_space(#[trigger] s@[i]),
                ensures
                    start < e <= n,
                    forall|i: int| start <= i < e ==> !is_space(#[trigger] s@[i]),
                    e == n || is_space(s@[e as int]),
                decreases n - e,
            {
                if is_space_char(s.get_char(e)) {
                    break ;
                }
                e = e + 1;
            }
            let word: String = s.substring_char(start, e).to_owned();
            proof {
                let t = s@.skip(start as int);
                let we = e - start;
                assert(forall|i: int| 0 <= i < we ==> !is_space(#[trigger] t[i]));
                lemma_ws_word(t, we);
                assert(t.subrange(0, we) =~= s@.subrange(start as int, e as int));
                assert(t.skip(we) =~= s@.skip(e as int));
                assert(out.deep_view() + (seq![word@] + spec_split_ws(s@.skip(e as int)))
                    =~= (out.deep_view() + seq![word@]) + spec_split_ws(s@.skip(e as int)));
                assert(out.deep_view().push(word@) =~= out.deep_view() + seq![word@]);
            }
            out.push(word);
            pos = e;
        }
    }
    proof {
        assert(s@.skip(n as int) =~= Seq::<char>::empty());
        assert(out.deep_view() + spec_split_ws(Seq::<char>::empty()) =~= out.deep_view());
    }
    out
}

/// `s` without its leading ASCII whitespace.
pub open spec fn spec_trim_start(s: Seq<char>) -> Seq<char>
    decreases s.len(),
{
    if s.len() > 0 && is_space(s[0]) {
        spec_trim_start(s.skip(1))
    } else {
        s
    }
}

/// Strips leading ASCII whitespace.
pub fn trim_start(s: &str) -> (r: String)
    ensures
        r@ == spec_trim_start(s@),
{
    let n: usize = s.unicode_len();
    let mut pos: usize = 0;
    proof {
        assert(s@.skip(0) =~= s@);
    }
    while pos < n
        invariant
            0 <= pos <= n,
            n == s@.len(),
            spec_trim_start(s@) == spec_trim_start(s@.skip(pos as int)),
        ensures
            0 <= pos <= n,
            n == s@.len(),
            spec_trim_start(s@) == spec_trim_start(s@.skip(pos as int)),
            pos == n || !is_space(s@[pos as int]),
        decreases n - pos,
    {
        if !is_space_char(s.get_char(pos)) {
            break ;
        }
        proof {
            assert(s@.skip(pos as int).skip(1) =~= s@.skip(pos + 1));
        }
        pos = pos + 1;
    }
    proof {
        if pos < n {
            assert(spec_trim_start(s@.skip(pos as int)) == s@.skip(pos as int));
        } else {
            assert(s@.skip(pos as int) =~= Seq::<char>::empty());
        }
    }
    s.substring_char(pos, n).to_owned()
}

/// Ten to the `n`.
pub open spec fn pow10(n: nat) -> nat
    decreases n,
{
    if n == 0 {
        1
    } else {
        10 * pow10((n - 1) as nat)
    }
}

/// Value of a digit-value sequence read least significant first.
pub open spec fn digits_val_rev(s: Seq<u64>) -> nat
    decreases s.len(),
{
    if s.len() == 0 {
        0
    } else {
        (s[0] + 10 * digits_val_rev(s.drop_first())) as nat
    }
}

proof fn lemma_digits_val_rev_push(s: Seq<u64>, d: u64)
    ensures
        digits_val_rev(s.push(d)) == digits_val_rev(s) + d * pow10(s.len()),
    decreases s.len(),
{
    if s.len() == 0 {
        assert(s.push(d).drop_first() =~= Seq::<u64>::empty());
        assert(digits_val_rev(Seq::<u64>::empty()) == 0);
        assert(s.push(d)[0] == d);
        assert(pow10(0) == 1);
        assert(d + 10 * 0 == d * 1) by (nonlinear_arith);
    } else {
        let t = s.drop_first();
        assert(s.push(d).drop_first() =~= t.push(d));
        lemma_digits_val_rev_push(t, d);
        assert(s.push(d)[0] == s[0]);
        assert(pow10(s.len()) == 10 * pow10(t.len()));
        assert(s[0] + 10 * ((digits_val_rev(t) + d * pow10(t.len())) as int) == (s[0] + 10
            * digits_val_rev(t)) + d * (10 * pow10(t.len()))) by (nonlinear_arith);
    }
}

/// The single-character string for a digit value.
pub fn digit_str(d: u64) -> (r: &'static str)
    requires
        d < 10,
    ensures
        r@.len() == 1 && is_digit(r@[0]) && digit_val(r@[0]) == d,
{
    proof {
        reveal_strlit("0");
        reveal_strlit("1");
        reveal_strlit("2");
        reveal_strlit("3");
        reveal_strlit("4");
        reveal_strlit("5");
        reveal_strlit("6");
        reveal_strlit("7");
        reveal_strlit("8");
        reveal_strlit("9");
    }
    match d {
        0 => "0",
        1 => "1",
        2 => "2",
        3 => "3",
        4 => "4",
        5 => "5",
        6 => "6",
        7 => "7",
        8 => "8",
        _ => "9",
    }
}

/// The character for a digit value.
pub open spec fn digit_char_of(d: nat) -> char {
    if d == 0 {
        '0'
    } else if d == 1 {
        '1'
    } else if d == 2 {
        '2'
    } else if d == 3 {
        '3'
    } else if d == 4 {
        '4'
    } else if d == 5 {
        '5'
    } else if d == 6 {
        '6'
    } else if d == 7 {
        '7'
    } else if d == 8 {
        '8'
    } else {
        '9'
    }
}

/// The decimal rendering of `n`: no sign, no leading zeroes.
pub open spec fn dec_str_of(n: nat) -> Seq<char>
    decreases n,
{
    if n < 10 {
        seq![digit_char_of(n)]
    } else {
        dec_str_of(n / 10).push(digit_char_of(n % 10))
    }
}

/// The decimal rendering denotes the number it was made from.
pub proof fn lemma_dec_str_of_val(n: nat)
    ensures
        dec_str_of(n).len() > 0,
        all_digits(dec_str_of(n)),
        dec_val(dec_str_of(n)) == n,
    decreases n,
{
    if n < 10 {
        let s = seq![digit_char_of(n)];
        assert(s.drop_last() =~= Seq::<char>::empty());
        assert(dec_val(Seq::<char>::empty()) == 0);
        assert(is_digit(digit_char_of(n)) && digit_val(digit_char_of(n)) == n);
    } else {
        lemma_dec_str_of_val(n / 10);
        let s = dec_str_of(n / 10).push(digit_char_of(n % 10));
        assert(s.drop_last() =~= dec_str_of(n / 10));
        assert(is_digit(digit_char_of(n % 10)) && digit_val(digit_char_of(n % 10)) == n % 10);
        assert(dec_val(s) == (n / 10) * 10 + n % 10);
        assert((n / 10) * 10 + n % 10 == n) by (nonlinear_arith);
        assert(forall|i: int| 0 <= i < s.len() ==> is_digit(#[trigger] s[i]));
    }
}

/// Renders `n` in decimal, without a sign and without leading zeroes.
pub fn u64_to_string(n: u64) -> (r: String)
    ensures
        r@ == dec_str_of(n as nat),
    decreases n,
{
    if n < 10 {
        let r = digit_str(n).to_owned();
        proof {
            assert(r@ =~= seq![digit_char_of(n as nat)]) by {
                assert(r@.len() == 1);
                assert(is_digit(r@[0]) && digit_val(r@[0]) == n);
                assert(r@[0] == digit_char_of(n as nat));
            }
        }
        r
    } else {
        let mut r = u64_to_string(n / 10);
        let piece = digit_str(n % 10);
        proof {
            assert(piece@[0] == digit_char_of((n % 10) as nat));
            assert(r@ + piece@ =~= r@.push(piece@[0]));
        }
        r.append(piece);
        r
    }
}

/// Why a digit string failed to parse.
#[derive(Clone, Copy, Debug, PartialEq, Eq, Structural)]
pub enum DigitError {
    /// A character other than a decimal digit.
    NotDigits,
    /// All digits, but the value exceeds `u64`.
    TooBig,
}

/// Digit-string parser that accepts the empty string as zero and reports
/// why it failed.
pub fn parse_digits(s: &str) -> (r: Result<u64, DigitError>)
    ensures
        match r {
            Ok(v) => all_digits(s@) && v == dec_val(s@),
            Err(DigitError::NotDigits) => !all_digits(s@),
            Err(DigitError::TooBig) => all_digits(s@) && dec_val(s@) > u64::MAX,
        },
{
    let n: usize = s.unicode_len();
    // First pass: every character must be a digit.
    let mut i: usize = 0;
    while i < n
        invariant
            0 <= i <= n,
            n == s@.len(),
            all_digits(s@.subrange(0, i as int)),
        decreases n - i,
    {
        let c: char = s.get_char(i);
        if c < '0' || c > '9' {
            assert(!is_digit(s@[i as int]));
            return Err(DigitError::NotDigits);
        }
        proof {
            assert(forall|j: int|
                0 <= j < i + 1 ==> is_digit(#[trigger] s@.subrange(0, i + 1)[j]));
        }
        i = i + 1;
    }
    proof {
        assert(s@.subrange(0, n as int) =~= s@);
    }
    // Second pass: accumulate, watching for overflow.
    let mut acc: u64 = 0;
    i = 0;
    while i < n
        invariant
            0 <= i <= n,
            n == s@.len(),
            all_digits(s@),
            acc == dec_val(s@.subrange(0, i as int)),
        decreases n - i,
    {
        let c: char = s.get_char(i);
        let d: u64 = (c as u32 as u64) - 48;
        assert(d == digit_val(s@[i as int]));
        if acc > (u64::MAX - d) / 10 {
            proof {
                assert(s@.subrange(0, i + 1).drop_last() =~= s@.subrange(0, i as int));
                assert(dec_val(s@.subrange(0, i + 1)) == acc * 10 + d);
                assert(acc * 10 + d > u64::MAX) by (nonlinear_arith)
                    requires
                        acc > (u64::MAX - d) / 10,
                        0 <= d <= 9,
                ;
                lemma_dec_val_prefix(s@, i + 1);
            }
            return Err(DigitError::TooBig);
        }
        proof {
            assert(s@.subrange(0, i + 1).drop_last() =~= s@.subrange(0, i as int));
            assert(acc * 10 + d <= u64::MAX) by (nonlinear_arith)
                requires
                    acc <= (u64::MAX - d) / 10,
                    0 <= d <= 9,
            ;
        }
        acc = acc * 10 + d;
        i = i + 1;
    }
    proof {
        assert(s@.subrange(0, n as int) =~= s@);
    }
    Ok(acc)
}

/// What a decimal literal `digits` or `digits.digits` denotes: the integer
/// part, the fraction digits' value, and how many fraction digits there are.
/// At least one digit must be present on one side of the dot.
pub open spec fn spec_decimal(s: Seq<char>) -> Option<(nat, nat, nat)> {
    let parts = spec_split(s, seq!['.']);
    if parts.len() == 1 && parts[0].len() > 0 && all_digits(parts[0]) {
        Some((dec_val(parts[0]), 0, 0))
    } else if parts.len() == 2 && all_digits(parts[0]) && all_digits(parts[1]) && parts[0].len()
        + parts[1].len() > 0 {
        Some((dec_val(parts[0]), dec_val(parts[1]), parts[1].len()))
    } else {
        None
    }
}

/// An occurrence of the separator splits a string into at least two pieces.
proof fn lemma_split_contains(s: Seq<char>, sep: Seq<char>, i: int)
    requires
        sep.len() > 0,
        occurs_at(s, sep, i),
        forall|j: int| 0 <= j < i ==> !occurs_at(s, sep, j),
    ensures
        spec_split(s, sep).len() >= 2,
{
    lemma_split_at_first(s, sep, i);
    lemma_split_len(s.skip(i + sep.len() as int), sep);
}

/// Why a decimal literal was rejected.
#[derive(Clone, Copy, Debug, PartialEq, Eq, Structural)]
pub enum DecError {
    /// Not of the form `digits`, `digits.digits`, `.digits` or `digits.`.
    NotDecimal,
    /// The integer part exceeds `u64`.
    IntTooBig,
    /// More than thirteen fraction digits: beyond the fixed-point precision.
    FracTooLong,
}

/// A digit string longer than nineteen characters denotes more than `u64`
/// can hold; conversely an overflowing digit string must be that long.
pub proof fn lemma_dec_val_overflow_len(s: Seq<char>)
    requires
        all_digits(s),
        dec_val(s) > u64::MAX,
    ensures
        s.len() > 19,
{
    lemma_dec_val_bound(s);
    if s.len() <= 19 {
        lemma_pow10_le(s.len(), 19);
        lemma_pow10_19();
    }
}

/// A digit string of length `n` denotes less than ten to the `n`.
pub proof fn lemma_dec_val_bound(s: Seq<char>)
    requires
        all_digits(s),
    ensures
        dec_val(s) < pow10(s.len()),
    decreases s.len(),
{
    if s.len() > 0 {
        lemma_dec_val_bound(s.drop_last());
        let c = s.last();
        assert(digit_val(c) <= 9);
        assert(dec_val(s.drop_last()) * 10 + 9 < pow10(s.len())) by (nonlinear_arith)
            requires
                dec_val(s.drop_last()) < pow10((s.len() - 1) as nat),
                pow10(s.len()) == 10 * pow10((s.len() - 1) as nat),
        ;
    }
}

/// Ten to any power is positive.
pub proof fn lemma_pow10_pos(d: nat)
    ensures
        pow10(d) >= 1,
    decreases d,
{
    if d > 0 {
        lemma_pow10_pos((d - 1) as nat);
    }
}

/// `pow10` never shrinks as the exponent grows.
pub proof fn lemma_pow10_le(a: nat, b: nat)
    requires
        a <= b,
    ensures
        pow10(a) <= pow10(b),
    decreases b,
{
    if a < b {
        lemma_pow10_le(a, (b - 1) as nat);
        lemma_pow10_pos((b - 1) as nat);
    }
}

/// The value of ten to the nineteenth, by unfolding.
pub proof fn lemma_pow10_19()
    ensures
        pow10(13) == 10_000_000_000_000,
        pow10(19) == 10_000_000_000_000_000_000,
{
    assert(pow10(0) == 1);
    assert(pow10(1) == 10);
    assert(pow10(2) == 100);
    assert(pow10(3) == 1000);
    assert(pow10(4) == 10000);
    assert(pow10(5) == 100000);
    assert(pow10(6) == 1000000);
    assert(pow10(7) == 10000000);
    assert(pow10(8) == 100000000);
    assert(pow10(9) == 1000000000);
    assert(pow10(10) == 10000000000);
    assert(pow10(11) == 100000000000);
    assert(pow10(12) == 1000000000000);
    assert(pow10(13) == 10000000000000);
    assert(pow10(14) == 100000000000000);
    assert(pow10(15) == 1000000000000000);
    assert(pow10(16) == 10000000000000000);
    assert(pow10(17) == 100000000000000000);
    assert(pow10(18) == 1000000000000000000);
    assert(pow10(19) == 10000000000000000000);
}

/// Parses a decimal literal with an optional fraction. Returns the integer
/// part's value, the fraction's value, and the fraction's digit count;
/// fractions longer than thirteen digits exceed the library's fixed-point
/// precision and are rejected.
pub fn parse_decimal(s: &str) -> (r: Result<(u64, u64, usize), DecError>)
    ensures
        match r {
            Ok((a, f, d)) => spec_decimal(s@) == Some((a as nat, f as nat, d as nat)) && d <= 13,
            Err(DecError::NotDecimal) => spec_decimal(s@) is None,
            Err(DecError::IntTooBig) => match spec_decimal(s@) {
                Some((a, f, d)) => a > u64::MAX && d <= 13,
                None => false,
            },
            Err(DecError::FracTooLong) => match spec_decimal(s@) {
                Some((a, f, d)) => d > 13,
                None => false,
            },
        },
{
    let n: usize = s.unicode_len();
    proof {
        reveal_strlit(".");
    }
    match find_sub(s, ".") {
        None => {
            proof {
                assert(forall|j: int| !occurs_at(s@, "."@, j));
                assert("."@ =~= seq!['.']);
                lemma_split_none(s@, seq!['.']);
            }
            if n == 0 {
                return Err(DecError::NotDecimal);
            }
            match parse_digits(s) {
                Ok(v) => Ok((v, 0, 0)),
                Err(DigitError::NotDigits) => Err(DecError::NotDecimal),
                Err(DigitError::TooBig) => Err(DecError::IntTooBig),
            }
        },
        Some(i) => {
            let int_part: &str = s.substring_char(0, i);
            let frac_part: &str = s.substring_char(i + 1, n);
            proof {
                assert("."@ =~= seq!['.']);
                lemma_split_at_first(s@, seq!['.'], i as int);
                assert(int_part@ =~= s@.subrange(0, i as int));
                assert(frac_part@ =~= s@.skip(i + 1));
            }
            match find_sub(frac_part, ".") {
                Some(k) => {
                    proof {
                        lemma_split_contains(s@.skip(i + 1), seq!['.'], k as int);
                    }
                    Err(DecError::NotDecimal)
                },
                None => {
                    proof {
                        assert(forall|j: int| !occurs_at(frac_part@, "."@, j));
                        lemma_split_none(s@.skip(i + 1), seq!['.']);
                        assert(spec_split(s@, seq!['.']) =~~= seq![int_part@, frac_part@]);
                    }
                    if int_part.unicode_len() == 0 && frac_part.unicode_len() == 0 {
                        return Err(DecError::NotDecimal);
                    }
                    let d: usize = frac_part.unicode_len();
                    let ra = parse_digits(int_part);
                    let rf = parse_digits(frac_part);
                    if matches!(ra, Err(DigitError::NotDigits)) || matches!(
                        rf,
                        Err(DigitError::NotDigits),
                    ) {
                        return Err(DecError::NotDecimal);
                    }
                    match rf {
                        Err(DigitError::NotDigits) => Err(DecError::NotDecimal),
                        Err(DigitError::TooBig) => {
                            proof {
                                lemma_dec_val_overflow_len(frac_part@);
                            }
                            Err(DecError::FracTooLong)
                        },
                        Ok(f) => {
                            if d > 13 {
                                return Err(DecError::FracTooLong);
                            }
                            match ra {
                                Err(DigitError::NotDigits) => Err(DecError::NotDecimal),
                                Err(DigitError::TooBig) => Err(DecError::IntTooBig),
                                Ok(a) => Ok((a, f, d)),
                            }
                        },
                    }
                },
            }
        },
    }
}

} // verus!
