//! Character-level text utilities: trimming, line-ending normalization,
//! case-insensitive substring matching, lexicographic ordering and
//! escaping of search patterns.

use vstd::prelude::*;
use vstd::string::*;

verus! {

/// The characters stripped by trimming: the Unicode `White_Space` set.
pub open spec fn is_space_char(c: char) -> bool {
    let u = c as u32;
    u == 0x9 || u == 0xA || u == 0xB || u == 0xC || u == 0xD || u == 0x20 || u == 0x85
        || u == 0xA0 || u == 0x1680 || (0x2000 <= u && u <= 0x200A) || u == 0x2028
        || u == 0x2029 || u == 0x202F || u == 0x205F || u == 0x3000
}

/// Executable test for [`is_space_char`].
pub fn is_space(c: char) -> (r: bool)
    ensures
        r == is_space_char(c),
{
    let u = c as u32;
    u == 0x9 || u == 0xA || u == 0xB || u == 0xC || u == 0xD || u == 0x20 || u == 0x85
        || u == 0xA0 || u == 0x1680 || (0x2000 <= u && u <= 0x200A) || u == 0x2028
        || u == 0x2029 || u == 0x202F || u == 0x205F || u == 0x3000
}

/// The text with leading white space removed.
pub open spec fn trim_front_spec(s: Seq<char>) -> Seq<char>
    decreases s.len(),
{
    if s.len() > 0 && is_space_char(s[0]) {
        trim_front_spec(s.skip(1))
    } else {
        s
    }
}

/// The text with trailing white space removed.
pub open spec fn trim_back_spec(s: Seq<char>) -> Seq<char>
    decreases s.len(),
{
    if s.len() > 0 && is_space_char(s[s.len() - 1]) {
        trim_back_spec(s.take(s.len() - 1))
    } else {
        s
    }
}

/// The text with leading and trailing white space removed.
pub open spec fn trim_spec(s: Seq<char>) -> Seq<char> {
    trim_back_spec(trim_front_spec(s))
}

/// Removes leading and trailing white space, as an owned string.
pub fn trim_str(s: &str) -> (r: String)
    ensures
        r@ == trim_spec(s@),
{
    let n = s.unicode_len();
    let mut a: usize = 0;
    proof {
        assert(s@.skip(0) =~= s@);
    }
    while a < n && is_space(s.get_char(a))
        invariant
            a <= n,
            n == s@.len(),
            trim_front_spec(s@) == trim_front_spec(s@.skip(a as int)),
        decreases n - a,
    {
        proof {
            assert(s@.skip(a as int).skip(1) =~= s@.skip(a as int + 1));
        }
        a = a + 1;
    }
    proof {
        assert(trim_front_spec(s@.skip(a as int)) == s@.skip(a as int));
    }
    let mut b: usize = n;
    proof {
        assert(s@.skip(a as int).take(n - a as int) =~= s@.skip(a as int));
    }
    while b > a && is_space(s.get_char(b - 1))
        invariant
            a <= b <= n,
            n == s@.len(),
            trim_front_spec(s@) == s@.skip(a as int),
            trim_back_spec(s@.skip(a as int)) == trim_back_spec(
                s@.skip(a as int).take(b - a as int),
            ),
        decreases b,
    {
        proof {
            let mid = s@.skip(a as int);
            let k = b - a as int;
            assert(mid.take(k)[k - 1] == s@[b - 1]);
            assert(mid.take(k).take(k - 1) =~= mid.take(k - 1));
        }
        b = b - 1;
    }
    proof {
        let mid = s@.skip(a as int);
        let k = b - a as int;
        if b > a {
            assert(mid.take(k)[k - 1] == s@[b - 1]);
        }
        assert(trim_back_spec(mid.take(k)) == mid.take(k));
        assert(mid.take(k) =~= s@.subrange(a as int, b as int));
    }
    let piece = s.substring_char(a, b);
    String::from_str(piece)
}

/// Character-for-character string equality.
pub fn str_eq(a: &str, b: &str) -> (r: bool)
    ensures
        r == (a@ == b@),
{
    let n = a.unicode_len();
    if n != b.unicode_len() {
        return false;
    }
    let mut i: usize = 0;
    while i < n
        invariant
            i <= n,
            n == a@.len() == b@.len(),
            forall|k: int| 0 <= k < i ==> a@[k] == b@[k],
        decreases n - i,
    {
        if a.get_char(i) != b.get_char(i) {
            return false;
        }
        i = i + 1;
    }
    proof {
        assert(a@ =~= b@);
    }
    true
}

/// Holds when the text begins with one or more `'\r'` followed by `'\n'`,
/// i.e. when the leading `'\r'` belongs to a line break and is dropped
/// by normalization.
pub open spec fn cr_run_then_lf(s: Seq<char>) -> bool
    decreases s.len(),
{
    s.len() >= 2 && s[0] == '\r' && (s[1] == '\n' || cr_run_then_lf(s.skip(1)))
}

/// The text with every carriage return that precedes a line feed removed,
/// so that all line breaks are a single `'\n'`.
pub open spec fn normalized_spec(s: Seq<char>) -> Seq<char>
    decreases s.len(),
{
    if s.len() == 0 {
        Seq::empty()
    } else if cr_run_then_lf(s) {
        normalized_spec(s.skip(1))
    } else {
        seq![s[0]] + normalized_spec(s.skip(1))
    }
}

/// A scan that finds only `'\r'` from `i` up to `j` decides `cr_run_then_lf`:
/// it holds exactly when the first character after the run is `'\n'`.
proof fn lemma_run_scan(s: Seq<char>, i: int, j: int)
    requires
        0 <= i < j <= s.len(),
        forall|k: int| i <= k < j ==> s[k] == '\r',
        j == s.len() || s[j] != '\r',
    ensures
        cr_run_then_lf(s.skip(i)) <==> (j < s.len() && s[j] == '\n'),
    decreases j - i,
{
    let t = s.skip(i);
    if i + 1 == j {
        if j < s.len() {
            assert(t[1] == s[j]);
            if s[j] != '\n' {
                assert(!cr_run_then_lf(t.skip(1))) by {
                    if t.skip(1).len() >= 2 {
                        assert(t.skip(1)[0] == s[j]);
                    }
                }
            }
        }
    } else {
        lemma_run_scan(s, i + 1, j);
        assert(t.skip(1) =~= s.skip(i + 1));
        assert(t[1] == s[i + 1]);
    }
}

/// Characters outside a dropped run pass through normalization unchanged.
proof fn lemma_norm_keep_run(s: Seq<char>, i: int, j: int)
    requires
        0 <= i <= j <= s.len(),
        forall|k: int| i <= k < j ==> !cr_run_then_lf(s.skip(k)),
    ensures
        normalized_spec(s.skip(i)) == s.subrange(i, j) + normalized_spec(s.skip(j)),
    decreases j - i,
{
    if i == j {
        assert(s.subrange(i, j) + normalized_spec(s.skip(j)) =~= normalized_spec(s.skip(i)));
    } else {
        lemma_norm_keep_run(s, i + 1, j);
        assert(s.skip(i).skip(1) =~= s.skip(i + 1));
        assert(seq![s[i]] + (s.subrange(i + 1, j) + normalized_spec(s.skip(j))) =~= s.subrange(
            i,
            j,
        ) + normalized_spec(s.skip(j)));
    }
}

/// A run of `'\r'` that precedes a `'\n'` is dropped whole by normalization.
proof fn lemma_norm_drop_run(s: Seq<char>, i: int, j: int)
    requires
        0 <= i <= j <= s.len(),
        forall|k: int| i <= k < j ==> cr_run_then_lf(s.skip(k)),
    ensures
        normalized_spec(s.skip(i)) == normalized_spec(s.skip(j)),
    decreases j - i,
{
    if i < j {
        lemma_norm_drop_run(s, i + 1, j);
        assert(s.skip(i).skip(1) =~= s.skip(i + 1));
    }
}

/// If the normalized text begins with `'\n'`, the input began with `'\n'`
/// or with a dropped run of carriage returns.
proof fn lemma_norm_head_lf(s: Seq<char>)
    ensures
        normalized_spec(s).len() > 0 && normalized_spec(s)[0] == '\n' ==> (s.len() > 0 && (s[0]
            == '\n' || cr_run_then_lf(s))),
{
}

/// Normalized text never contains a carriage return followed by a line feed.
pub proof fn lemma_norm_no_crlf(s: Seq<char>)
    ensures
        forall|k: int|
            0 <= k && k + 1 < normalized_spec(s).len() ==> !(#[trigger] normalized_spec(s)[k]
                == '\r' && normalized_spec(s)[k + 1] == '\n'),
    decreases s.len(),
{
    let r = normalized_spec(s);
    if s.len() == 0 {
    } else if cr_run_then_lf(s) {
        lemma_norm_no_crlf(s.skip(1));
        assert(normalized_spec(s) == normalized_spec(s.skip(1)));
    } else {
        lemma_norm_no_crlf(s.skip(1));
        let tail = normalized_spec(s.skip(1));
        assert forall|k: int| 0 <= k && k + 1 < r.len() implies !(#[trigger] r[k] == '\r' && r[k
            + 1] == '\n') by {
            if k == 0 {
                if r.len() >= 2 && r[0] == '\r' && r[1] == '\n' {
                    assert(tail[0] == '\n');
                    lemma_norm_head_lf(s.skip(1));
                    if s.skip(1)[0] == '\n' {
                        assert(s[1] == '\n');
                        assert(cr_run_then_lf(s));
                    } else {
                        assert(cr_run_then_lf(s.skip(1)));
                        assert(cr_run_then_lf(s));
                    }
                    assert(false);
                }
            } else {
                assert(r[k] == tail[k - 1]);
                assert(r[k + 1] == tail[k]);
            }
        }
    }
}

/// Replaces every line break written as carriage return plus line feed by a
/// single line feed; the result never contains a `"\r\n"` pair.
pub fn normalize_newlines(text: &str) -> (r: String)
    ensures
        r@ == normalized_spec(text@),
        forall|k: int| 0 <= k && k + 1 < r@.len() ==> !(#[trigger] r@[k] == '\r' && r@[k + 1] == '\n'),
{
    let n = text.unicode_len();
    let mut out = String::new();
    let mut ss: usize = 0;
    let mut i: usize = 0;
    proof {
        assert(text@.skip(0) =~= text@);
        assert(Seq::<char>::empty() + normalized_spec(text@) =~= normalized_spec(text@));
    }
    while i < n
        invariant
            ss <= i <= n,
            n == text@.len(),
            forall|k: int| ss <= k < i ==> !cr_run_then_lf(text@.skip(k)),
            normalized_spec(text@) == out@ + normalized_spec(text@.skip(ss as int)),
        decreases n - i,
    {
        let c = text.get_char(i);
        if c == '\r' {
            let mut j: usize = i;
            while j < n && text.get_char(j) == '\r'
                invariant
                    i <= j <= n,
                    n == text@.len(),
                    forall|k: int| i <= k < j ==> text@[k] == '\r',
                decreases n - j,
            {
                j = j + 1;
            }
            if j < n && text.get_char(j) == '\n' {
                // the run of carriage returns belongs to line breaks: drop it
                proof {
                    assert forall|k: int| i <= k < j implies cr_run_then_lf(text@.skip(k)) by {
                        lemma_run_scan(text@, k, j as int);
                    }
                    lemma_norm_keep_run(text@, ss as int, i as int);
                    lemma_norm_drop_run(text@, i as int, j as int);
                    assert(out@ + (text@.subrange(ss as int, i as int) + normalized_spec(
                        text@.skip(j as int),
                    )) =~= (out@ + text@.subrange(ss as int, i as int)) + normalized_spec(
                        text@.skip(j as int),
                    ));
                }
                let piece = text.substring_char(ss, i);
                out.append(piece);
                ss = j;
                i = j;
            } else {
                // a run of carriage returns not before a line feed is kept
                proof {
                    assert forall|k: int| i <= k < j implies !cr_run_then_lf(text@.skip(k)) by {
                        lemma_run_scan(text@, k, j as int);
                    }
                }
                i = j;
            }
        } else {
            proof {
                assert(!cr_run_then_lf(text@.skip(i as int))) by {
                    if text@.skip(i as int).len() >= 2 {
                        assert(text@.skip(i as int)[0] == text@[i as int]);
                    }
                }
            }
            i = i + 1;
        }
    }
    proof {
        lemma_norm_keep_run(text@, ss as int, n as int);
        assert(text@.subrange(ss as int, n as int) + normalized_spec(text@.skip(n as int))
            =~= text@.subrange(ss as int, n as int));
    }
    let piece = text.substring_char(ss, n);
    out.append(piece);
    proof {
        lemma_norm_no_crlf(text@);
    }
    out
}

/// The code point of a character with an ASCII lower-case letter mapped to
/// its upper-case counterpart: the key of case-insensitive comparison.
pub open spec fn fold_char(c: char) -> u32 {
    if 97 <= c as u32 && c as u32 <= 122 {
        (c as u32 - 32) as u32
    } else {
        c as u32
    }
}

/// Executable [`fold_char`].
pub fn fold(c: char) -> (r: u32)
    ensures
        r == fold_char(c),
{
    let u = c as u32;
    if 97 <= u && u <= 122 {
        u - 32
    } else {
        u
    }
}

/// The needle matches the haystack at offset `i`, ignoring ASCII case.
pub open spec fn ci_match_at(hay: Seq<char>, nee: Seq<char>, i: int) -> bool {
    forall|j: int| 0 <= j < nee.len() ==> fold_char(hay[i + j]) == #[trigger] fold_char(nee[j])
}

/// The needle occurs somewhere in the haystack, ignoring ASCII case.
pub open spec fn contains_ci(hay: Seq<char>, nee: Seq<char>) -> bool {
    exists|i: int| 0 <= i && i + nee.len() <= hay.len() && #[trigger] ci_match_at(hay, nee, i)
}

/// Case-insensitive substring search.
pub fn find_ci(hay: &str, nee: &str) -> (r: bool)
    ensures
        r == contains_ci(hay@, nee@),
{
    let h = hay.unicode_len();
    let n = nee.unicode_len();
    if n > h {
        return false;
    }
    let mut i: usize = 0;
    while i <= h - n
        invariant
            n <= h,
            h == hay@.len(),
            n == nee@.len(),
            i <= h - n + 1,
            forall|k: int| 0 <= k < i ==> !(#[trigger] ci_match_at(hay@, nee@, k)),
        decreases h + 1 - n - i,
    {
        let mut j: usize = 0;
        let mut ok = true;
        while ok && j < n
            invariant
                i + n <= h,
                h == hay@.len(),
                n == nee@.len(),
                j <= n,
                ok ==> forall|k: int|
                    0 <= k < j ==> fold_char(hay@[i + k]) == #[trigger] fold_char(nee@[k]),
                !ok ==> !ci_match_at(hay@, nee@, i as int),
            decreases n - j + (if ok { 1int } else { 0int }),
        {
            if fold(hay.get_char(i + j)) != fold(nee.get_char(j)) {
                proof {
                    assert(!ci_match_at(hay@, nee@, i as int));
                }
                ok = false;
            } else {
                j = j + 1;
            }
        }
        if ok {
            proof {
                assert(ci_match_at(hay@, nee@, i as int));
            }
            return true;
        }
        i = i + 1;
    }
    false
}

/// Strict lexicographic order on character sequences by code point, the
/// order in which tag names are listed.
pub open spec fn lex_lt(a: Seq<char>, b: Seq<char>) -> bool
    decreases a.len(),
{
    if b.len() == 0 {
        false
    } else if a.len() == 0 {
        true
    } else if (a[0] as int) < (b[0] as int) {
        true
    } else if (a[0] as int) > (b[0] as int) {
        false
    } else {
        lex_lt(a.skip(1), b.skip(1))
    }
}

/// Of two distinct strings, one is lexicographically smaller.
pub proof fn lemma_lex_total(a: Seq<char>, b: Seq<char>)
    ensures
        a == b || lex_lt(a, b) || lex_lt(b, a),
    decreases a.len() + b.len(),
{
    if b.len() == 0 || a.len() == 0 {
        if a.len() == b.len() {
            assert(a =~= b);
        }
    } else if (a[0] as int) == (b[0] as int) {
        lemma_lex_total(a.skip(1), b.skip(1));
        if a.skip(1) == b.skip(1) {
            assert(a[0] == b[0]);
            assert forall|i: int| 0 <= i < a.len() implies a[i] == b[i] by {
                if i > 0 {
                    assert(a.skip(1)[i - 1] == a[i]);
                    assert(b.skip(1)[i - 1] == b[i]);
                }
            }
            assert(a =~= b);
        }
    }
}

/// Lexicographic order is transitive.
pub proof fn lemma_lex_trans(a: Seq<char>, b: Seq<char>, c: Seq<char>)
    requires
        lex_lt(a, b),
        lex_lt(b, c),
    ensures
        lex_lt(a, c),
    decreases a.len() + b.len() + c.len(),
{
    if a.len() == 0 {
    } else {
        // b and c are non-empty since something is below them
        if (a[0] as int) == (b[0] as int) && (b[0] as int) == (c[0] as int) {
            lemma_lex_trans(a.skip(1), b.skip(1), c.skip(1));
        }
    }
}

/// Lexicographic order is irreflexive.
pub proof fn lemma_lex_irrefl(a: Seq<char>)
    ensures
        !lex_lt(a, a),
    decreases a.len(),
{
    if a.len() > 0 {
        lemma_lex_irrefl(a.skip(1));
    }
}

/// Strict comparison of two strings in the order of [`lex_lt`].
pub fn str_lt(a: &str, b: &str) -> (r: bool)
    ensures
        r == lex_lt(a@, b@),
{
    let an = a.unicode_len();
    let bn = b.unicode_len();
    let mut i: usize = 0;
    proof {
        assert(a@.skip(0) =~= a@);
        assert(b@.skip(0) =~= b@);
    }
    while i < an && i < bn
        invariant
            an == a@.len(),
            bn == b@.len(),
            i <= an,
            i <= bn,
            lex_lt(a@, b@) == lex_lt(a@.skip(i as int), b@.skip(i as int)),
        decreases an - i,
    {
        let ca = a.get_char(i);
        let cb = b.get_char(i);
        proof {
            assert(a@.skip(i as int)[0] == a@[i as int]);
            assert(b@.skip(i as int)[0] == b@[i as int]);
            assert(a@.skip(i as int).skip(1) =~= a@.skip(i as int + 1));
            assert(b@.skip(i as int).skip(1) =~= b@.skip(i as int + 1));
        }
        if (ca as u32) < (cb as u32) {
            proof {
                assert((ca as int) < (cb as int));
            }
            return true;
        }
        if (ca as u32) > (cb as u32) {
            proof {
                assert((ca as int) > (cb as int));
            }
            return false;
        }
        proof {
            assert((ca as int) == (cb as int));
        }
        i = i + 1;
    }
    i >= an && i < bn
}

/// The query text with the pattern characters `\`, `%` and `_` each
/// preceded by a backslash, so that it matches only literally.
pub open spec fn like_escaped(s: Seq<char>) -> Seq<char>
    decreases s.len(),
{
    if s.len() == 0 {
        Seq::empty()
    } else if s[0] == '\\' || s[0] == '%' || s[0] == '_' {
        seq!['\\', s[0]] + like_escaped(s.skip(1))
    } else {
        seq![s[0]] + like_escaped(s.skip(1))
    }
}

/// Characters that need no escape pass through [`like_escaped`] unchanged.
proof fn lemma_escape_plain_run(s: Seq<char>, i: int, j: int)
    requires
        0 <= i <= j <= s.len(),
        forall|k: int| i <= k < j ==> !(#[trigger] s[k] == '\\' || s[k] == '%' || s[k] == '_'),
    ensures
        like_escaped(s.skip(i)) == s.subrange(i, j) + like_escaped(s.skip(j)),
    decreases j - i,
{
    if i == j {
        assert(s.subrange(i, j) + like_escaped(s.skip(j)) =~= like_escaped(s.skip(i)));
    } else {
        lemma_escape_plain_run(s, i + 1, j);
        assert(s.skip(i).skip(1) =~= s.skip(i + 1));
        assert(s.skip(i)[0] == s[i]);
        assert(seq![s[i]] + (s.subrange(i + 1, j) + like_escaped(s.skip(j))) =~= s.subrange(i, j)
            + like_escaped(s.skip(j)));
    }
}

/// Builds the pattern used for a literal substring search: the trimmed
/// query, escaped, between two `%` wildcards; `None` when the query trims
/// to nothing.
pub fn build_like_pattern(input: &str) -> (r: Option<String>)
    ensures
        (trim_spec(input@).len() == 0) == (r is None),
        r is Some ==> r->0@ == seq!['%'] + like_escaped(trim_spec(input@)) + seq!['%'],
{
    let trimmed = trim_str(input);
    let t = trimmed.as_str();
    let n = t.unicode_len();
    if n == 0 {
        return None;
    }
    let mut out = String::from_str("%");
    let mut ss: usize = 0;
    let mut i: usize = 0;
    proof {
        assert(t@.skip(0) =~= t@);
        assert("%"@ + like_escaped(t@) =~= seq!['%'] + like_escaped(t@)) by {
            reveal_strlit("%");
        }
    }
    while i < n
        invariant
            ss <= i <= n,
            n == t@.len(),
            forall|k: int| ss <= k < i ==> !(#[trigger] t@[k] == '\\' || t@[k] == '%' || t@[k] == '_'),
            seq!['%'] + like_escaped(t@) == out@ + like_escaped(t@.skip(ss as int)),
        decreases n - i,
    {
        let c = t.get_char(i);
        if c == '\\' || c == '%' || c == '_' {
            proof {
                lemma_escape_plain_run(t@, ss as int, i as int);
                assert(t@.skip(i as int)[0] == t@[i as int]);
                assert(t@.skip(i as int).skip(1) =~= t@.skip(i as int + 1));
                assert(t@.subrange(i as int, i as int + 1) =~= seq![t@[i as int]]);
                reveal_strlit("\\");
                assert("\\"@ =~= seq!['\\']);
                assert(out@ + (t@.subrange(ss as int, i as int) + (seq!['\\', t@[i as int]]
                    + like_escaped(t@.skip(i as int + 1)))) =~= ((out@ + t@.subrange(
                    ss as int,
                    i as int,
                ) + "\\"@) + t@.subrange(i as int, i as int + 1)) + like_escaped(
                    t@.skip(i as int + 1),
                ));
            }
            let piece = t.substring_char(ss, i);
            out.append(piece);
            out.append("\\");
            let esc = t.substring_char(i, i + 1);
            out.append(esc);
            ss = i + 1;
            i = i + 1;
        } else {
            i = i + 1;
        }
    }
    proof {
        lemma_escape_plain_run(t@, ss as int, n as int);
        assert(t@.skip(n as int).len() == 0);
        assert(t@.subrange(ss as int, n as int) + like_escaped(t@.skip(n as int)) =~= t@.subrange(
            ss as int,
            n as int,
        ));
        reveal_strlit("%");
        assert("%"@ =~= seq!['%']);
        assert((out@ + t@.subrange(ss as int, n as int)) + "%"@ =~= (seq!['%'] + like_escaped(t@))
            + seq!['%']);
    }
    let piece = t.substring_char(ss, n);
    out.append(piece);
    out.append("%");
    Some(out)
}

/// The decimal digit for a value below ten.
pub open spec fn digit_char(d: nat) -> char {
    if d == 0 {
        '0'
    } else if d == 1 {
        '1'
    } else if d == 2 {
        '2'
    } else if d == 3 {
        '3'
    } else if d == 4 {
        '4'
    } else if d == 5 {
        '5'
    } else if d == 6 {
        '6'
    } else if d == 7 {
        '7'
    } else if d == 8 {
        '8'
    } else {
        '9'
    }
}

/// The decimal digits of a number, most significant first.
pub open spec fn dec_spec(n: nat) -> Seq<char>
    decreases n,
{
    if n < 10 {
        seq![digit_char(n)]
    } else {
        dec_spec(n / 10) + seq![digit_char(n % 10)]
    }
}

/// Appends the decimal digits of `n`.
pub fn append_decimal(out: &mut String, n: u64)
    ensures
        final(out)@ == old(out)@ + dec_spec(n as nat),
    decreases n,
{
    if n >= 10 {
        append_decimal(out, n / 10);
    }
    let d = n % 10;
    if d == 0 {
        out.append("0");
        proof {
            reveal_strlit("0");
            assert("0"@ =~= seq![digit_char((n % 10) as nat)]);
        }
    } else if d == 1 {
        out.append("1");
        proof {
            reveal_strlit("1");
            assert("1"@ =~= seq![digit_char((n % 10) as nat)]);
        }
    } else if d == 2 {
        out.append("2");
        proof {
            reveal_strlit("2");
            assert("2"@ =~= seq![digit_char((n % 10) as nat)]);
        }
    } else if d == 3 {
        out.append("3");
        proof {
            reveal_strlit("3");
            assert("3"@ =~= seq![digit_char((n % 10) as nat)]);
        }
    } else if d == 4 {
        out.append("4");
        proof {
            reveal_strlit("4");
            assert("4"@ =~= seq![digit_char((n % 10) as nat)]);
        }
    } else if d == 5 {
        out.append("5");
        proof {
            reveal_strlit("5");
            assert("5"@ =~= seq![digit_char((n % 10) as nat)]);
        }
    } else if d == 6 {
        out.append("6");
        proof {
            reveal_strlit("6");
            assert("6"@ =~= seq![digit_char((n % 10) as nat)]);
        }
    } else if d == 7 {
        out.append("7");
        proof {
            reveal_strlit("7");
            assert("7"@ =~= seq![digit_char((n % 10) as nat)]);
        }
    } else if d == 8 {
        out.append("8");
        proof {
            reveal_strlit("8");
            assert("8"@ =~= seq![digit_char((n % 10) as nat)]);
        }
    } else {
        out.append("9");
        proof {
            reveal_strlit("9");
            assert("9"@ =~= seq![digit_char((n % 10) as nat)]);
        }
    }
    proof {
        if n < 10 {
            assert(old(out)@ + seq![digit_char(n as nat)] =~= final(out)@);
        } else {
            assert((old(out)@ + dec_spec((n / 10) as nat)) + seq![digit_char((n % 10) as nat)]
                =~= old(out)@ + dec_spec(n as nat));
        }
    }
}

} // verus!
