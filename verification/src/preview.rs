//! Derivation of the bounded display previews: a line- and
//! length-limited summary for text, and a base-name listing for files.

use vstd::prelude::*;
use vstd::string::*;
use crate::text::{append_decimal, dec_spec, trim_spec, trim_str};

verus! {

/// Path separators recognized when deriving a base file name.
pub open spec fn is_sep_char(c: char) -> bool {
    c == '/' || c == '\\'
}

/// Executable test for [`is_sep_char`].
pub fn is_sep(c: char) -> (r: bool)
    ensures
        r == is_sep_char(c),
{
    c == '/' || c == '\\'
}

/// The characters after the last path separator; empty when the path ends
/// in a separator.
pub open spec fn base_of(p: Seq<char>) -> Seq<char>
    decreases p.len(),
{
    if p.len() == 0 {
        Seq::empty()
    } else if is_sep_char(p[p.len() - 1]) {
        Seq::empty()
    } else {
        base_of(p.take(p.len() - 1)) + seq![p[p.len() - 1]]
    }
}

/// The path with trailing separators removed: `"a/b/"` names the same
/// entry as `"a/b"`.
pub open spec fn strip_seps(p: Seq<char>) -> Seq<char>
    decreases p.len(),
{
    if p.len() > 0 && is_sep_char(p[p.len() - 1]) {
        strip_seps(p.take(p.len() - 1))
    } else {
        p
    }
}

/// The name a path is shown under: its base name, ignoring trailing
/// separators, or the whole path when no base name can be derived.
pub open spec fn display_name(p: Seq<char>) -> Seq<char> {
    if base_of(strip_seps(p)).len() == 0 {
        p
    } else {
        base_of(strip_seps(p))
    }
}

/// The base name is the suffix that follows the last separator.
proof fn lemma_base_suffix(p: Seq<char>, j: int)
    requires
        0 <= j <= p.len(),
        forall|k: int| j <= k < p.len() ==> !is_sep_char(#[trigger] p[k]),
        j == 0 || is_sep_char(p[j - 1]),
    ensures
        base_of(p) == p.skip(j),
    decreases p.len() - j,
{
    if j == p.len() {
        if p.len() == 0 {
            assert(base_of(p) =~= p.skip(j));
        } else {
            assert(is_sep_char(p[p.len() - 1]));
            assert(base_of(p) =~= p.skip(j));
        }
    } else {
        let q = p.take(p.len() - 1);
        lemma_base_suffix(q, j);
        assert(base_of(p) == base_of(q) + seq![p[p.len() - 1]]);
        assert(q.skip(j) + seq![p[p.len() - 1]] =~= p.skip(j));
    }
}

/// The shown name of one path.
pub fn display_name_exec(path: &str) -> (r: String)
    ensures
        r@ == display_name(path@),
{
    let n = path.unicode_len();
    let mut e: usize = n;
    proof {
        assert(path@.take(n as int) =~= path@);
    }
    while e > 0 && is_sep(path.get_char(e - 1))
        invariant
            e <= n,
            n == path@.len(),
            strip_seps(path@) == strip_seps(path@.take(e as int)),
        decreases e,
    {
        proof {
            assert(path@.take(e as int)[e - 1] == path@[e - 1]);
            assert(path@.take(e as int).take(e - 1) =~= path@.take(e - 1));
        }
        e = e - 1;
    }
    proof {
        if e > 0 {
            assert(path@.take(e as int)[e - 1] == path@[e - 1]);
        }
        assert(strip_seps(path@) == path@.take(e as int));
    }
    let mut j: usize = e;
    while j > 0 && !is_sep(path.get_char(j - 1))
        invariant
            j <= e <= n,
            n == path@.len(),
            forall|k: int| j <= k < e ==> !is_sep_char(#[trigger] path@[k]),
        decreases j,
    {
        j = j - 1;
    }
    proof {
        let st = path@.take(e as int);
        assert forall|k: int| j <= k < st.len() implies !is_sep_char(#[trigger] st[k]) by {
            assert(st[k] == path@[k]);
        }
        if j > 0 {
            assert(st[j - 1] == path@[j - 1]);
        }
        lemma_base_suffix(st, j as int);
        assert(st.skip(j as int) =~= path@.subrange(j as int, e as int));
    }
    if j == e {
        // no base name: the path is empty or made of separators only
        String::from_str(path)
    } else {
        String::from_str(path.substring_char(j, e))
    }
}

/// The display names of the paths `i` up to `k`, one per line.
pub open spec fn joined_names(files: Seq<Seq<char>>, i: int, k: int) -> Seq<char>
    decreases k - i,
{
    if i >= k {
        Seq::empty()
    } else if i + 1 == k {
        display_name(files[i])
    } else {
        display_name(files[i]) + seq!['\n'] + joined_names(files, i + 1, k)
    }
}

/// Appending one more name to a joined listing.
proof fn lemma_join_snoc(files: Seq<Seq<char>>, a: int, k: int)
    requires
        0 <= a <= k < files.len(),
    ensures
        a == k ==> joined_names(files, a, k + 1) == display_name(files[k]),
        a < k ==> joined_names(files, a, k + 1) == joined_names(files, a, k) + seq!['\n']
            + display_name(files[k]),
    decreases k - a,
{
    if a < k {
        lemma_join_snoc(files, a + 1, k);
        if a + 1 == k {
            assert((display_name(files[a]) + seq!['\n'] + display_name(files[k])) =~= joined_names(
                files,
                a,
                k,
            ) + seq!['\n'] + display_name(files[k]));
        } else {
            assert(display_name(files[a]) + seq!['\n'] + (joined_names(files, a + 1, k)
                + seq!['\n'] + display_name(files[k])) =~= (display_name(files[a]) + seq!['\n']
                + joined_names(files, a + 1, k)) + seq!['\n'] + display_name(files[k]));
        }
    }
}

/// The preview of a list of files: the base names of the first three, one
/// per line, and a final count line when more files were present.
pub open spec fn file_preview_spec(files: Seq<Seq<char>>) -> Seq<char> {
    if files.len() <= 3 {
        joined_names(files, 0, files.len() as int)
    } else {
        joined_names(files, 0, 3) + seq!['\n'] + "… 等 "@ + dec_spec(files.len()) + " 个文件"@
    }
}

/// Builds the display preview of a copied file list.
pub fn build_file_preview(files: &Vec<String>) -> (r: String)
    ensures
        r@ == file_preview_spec(files.deep_view()),
{
    let total = files.len();
    let k = if total > 3 {
        3
    } else {
        total
    };
    let mut out = String::new();
    let mut i: usize = 0;
    while i < k
        invariant
            k <= total == files.len(),
            k <= 3,
            total > 3 ==> k == 3,
            i <= k,
            out@ == joined_names(files.deep_view(), 0, i as int),
        decreases k - i,
    {
        let name = display_name_exec(files[i].as_str());
        proof {
            assert(files.deep_view()[i as int] == files@[i as int]@);
            lemma_join_snoc(files.deep_view(), 0, i as int);
            reveal_strlit("\n");
            assert("\n"@ =~= seq!['\n']);
            if i > 0 {
                assert((out@ + "\n"@) + name@ =~= joined_names(files.deep_view(), 0, i as int)
                    + seq!['\n'] + display_name(files.deep_view()[i as int]));
            }
        }
        if i > 0 {
            out.append("\n");
        }
        out.append(name.as_str());
        i = i + 1;
    }
    if total > 3 {
        proof {
            reveal_strlit("\n");
            assert("\n"@ =~= seq!['\n']);
        }
        out.append("\n");
        out.append("… 等 ");
        append_decimal(&mut out, total as u64);
        out.append(" 个文件");
        proof {
            assert(((((joined_names(files.deep_view(), 0, 3) + seq!['\n']) + "… 等 "@) + dec_spec(
                total as nat,
            )) + " 个文件"@) =~= file_preview_spec(files.deep_view()));
        }
    }
    out
}

/// The index of the cut that keeps at most `k + 1` lines: the position of
/// the `k + 1`-th line feed, or the length when there are fewer.
pub open spec fn cut_idx(s: Seq<char>, k: nat) -> int
    decreases s.len(),
{
    if s.len() == 0 {
        0
    } else if s[0] == '\n' {
        if k == 0 {
            0
        } else {
            1 + cut_idx(s.skip(1), (k - 1) as nat)
        }
    } else {
        1 + cut_idx(s.skip(1), k)
    }
}

/// The cut index lies within the text.
proof fn lemma_cut_idx_bounds(s: Seq<char>, k: nat)
    ensures
        0 <= cut_idx(s, k) <= s.len(),
    decreases s.len(),
{
    if s.len() > 0 {
        if s[0] == '\n' {
            if k > 0 {
                lemma_cut_idx_bounds(s.skip(1), (k - 1) as nat);
            }
        } else {
            lemma_cut_idx_bounds(s.skip(1), k);
        }
    }
}

/// The character count at which a text preview is truncated.
pub open spec fn preview_limit() -> int {
    120
}

/// The preview of a text: the trimmed text cut to its first six lines and,
/// beyond 120 characters, truncated with a trailing ellipsis.
pub open spec fn text_preview_spec(text: Seq<char>) -> Seq<char> {
    let tr = trim_spec(text);
    let base = tr.take(cut_idx(tr, 5));
    if base.len() <= preview_limit() {
        base
    } else {
        base.take(preview_limit()) + seq!['…']
    }
}

/// Builds the display preview of a text snapshot.
pub fn build_text_preview(text: &str) -> (r: String)
    ensures
        r@ == text_preview_spec(text@),
{
    let trimmed = trim_str(text);
    let t = trimmed.as_str();
    let n = t.unicode_len();
    let mut i: usize = 0;
    let mut cnt: usize = 0;
    let mut cut: usize = n;
    let mut found = false;
    proof {
        assert(t@.skip(0) =~= t@);
    }
    while i < n && !found
        invariant
            i <= n,
            n == t@.len(),
            cnt <= 5,
            !found ==> cut_idx(t@, 5) == i + cut_idx(t@.skip(i as int), (5 - cnt) as nat),
            found ==> cut_idx(t@, 5) == cut && cut <= n,
            !found ==> cut == n,
        decreases n - i + (if found { 0int } else { 1int }),
    {
        let c = t.get_char(i);
        proof {
            assert(t@.skip(i as int)[0] == t@[i as int]);
            assert(t@.skip(i as int).skip(1) =~= t@.skip(i as int + 1));
        }
        if c == '\n' {
            if cnt == 5 {
                cut = i;
                found = true;
            } else {
                cnt = cnt + 1;
                i = i + 1;
            }
        } else {
            i = i + 1;
        }
    }
    proof {
        if !found {
            assert(t@.skip(n as int).len() == 0);
        }
        lemma_cut_idx_bounds(t@, 5);
        assert(t@.subrange(0, cut as int) =~= t@.take(cut as int));
    }
    let base = t.substring_char(0, cut);
    if cut <= 120 {
        String::from_str(base)
    } else {
        proof {
            assert(base@.subrange(0, preview_limit()) =~= t@.take(cut as int).take(
                preview_limit(),
            ));
            reveal_strlit("…");
            assert("…"@ =~= seq!['…']);
        }
        let mut out = String::from_str(base.substring_char(0, 120));
        out.append("…");
        out
    }
}

} // verus!
