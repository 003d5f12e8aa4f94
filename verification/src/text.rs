//! Text processing for hook bodies: whitespace trimming, line splitting,
//! token splitting, and `$@` placeholder substitution.

use vstd::prelude::*;

verus! {

/// The whitespace characters this library recognizes when trimming hook
/// lines and splitting them into tokens (the ASCII whitespace characters).
pub open spec fn is_space(c: char) -> bool {
    c == ' ' || c == '\t' || c == '\n' || c == '\r' || c == '\u{c}'
}

fn is_space_char(c: char) -> (r: bool)
    ensures
        r == is_space(c),
{
    c == ' ' || c == '\t' || c == '\n' || c == '\r' || c == '\u{c}'
}

/// The number of whitespace characters at the start of `s`.
pub open spec fn leading_spaces(s: Seq<char>) -> int
    decreases s.len(),
{
    if s.len() == 0 || !is_space(s[0]) {
        0
    } else {
        1 + leading_spaces(s.skip(1))
    }
}

/// The number of whitespace characters at the end of `s`.
pub open spec fn trailing_spaces(s: Seq<char>) -> int
    decreases s.len(),
{
    if s.len() == 0 || !is_space(s.last()) {
        0
    } else {
        1 + trailing_spaces(s.drop_last())
    }
}

/// `s` with leading and trailing whitespace removed.
pub open spec fn spec_trim(s: Seq<char>) -> Seq<char> {
    if leading_spaces(s) == s.len() {
        Seq::empty()
    } else {
        s.subrange(leading_spaces(s), s.len() - trailing_spaces(s))
    }
}

/// `leading_spaces` counts exactly the longest all-whitespace prefix.
pub proof fn lemma_leading_spaces_is(s: Seq<char>, k: int)
    requires
        0 <= k <= s.len(),
        forall|i: int| 0 <= i < k ==> is_space(s[i]),
        k == s.len() || !is_space(s[k]),
    ensures
        leading_spaces(s) == k,
    decreases k,
{
    if k == 0 {
    } else {
        assert(is_space(s[0]));
        assert(forall|i: int| 0 <= i < k - 1 ==> s.skip(1)[i] == s[i + 1]);
        lemma_leading_spaces_is(s.skip(1), k - 1);
    }
}

/// `trailing_spaces` counts exactly the longest all-whitespace suffix.
pub proof fn lemma_trailing_spaces_is(s: Seq<char>, k: int)
    requires
        0 <= k <= s.len(),
        forall|i: int| s.len() - k <= i < s.len() ==> is_space(s[i]),
        k == s.len() || !is_space(s[s.len() - k - 1]),
    ensures
        trailing_spaces(s) == k,
    decreases k,
{
    if k == 0 {
    } else {
        assert(is_space(s.last()));
        assert(forall|i: int| 0 <= i < s.len() - 1 ==> s.drop_last()[i] == s[i]);
        lemma_trailing_spaces_is(s.drop_last(), k - 1);
    }
}

/// Removes leading and trailing whitespace, as `spec_trim` describes.
pub fn trim(s: &str) -> (r: &str)
    ensures
        r@ == spec_trim(s@),
{
    let len = s.unicode_len();
    let mut start: usize = 0;
    while start < len && is_space_char(s.get_char(start))
        invariant
            len == s@.len(),
            0 <= start <= len,
            forall|i: int| 0 <= i < start ==> is_space(s@[i]),
        decreases len - start,
    {
        start = start + 1;
    }
    proof {
        lemma_leading_spaces_is(s@, start as int);
    }
    if start == len {
        let r = s.substring_char(start, len);
        proof {
            assert(r@ =~= Seq::<char>::empty());
        }
        r
    } else {
        let mut end: usize = len;
        while end > start && is_space_char(s.get_char(end - 1))
            invariant
                len == s@.len(),
                start <= end <= len,
                !is_space(s@[start as int]),
                forall|i: int| end <= i < len ==> is_space(s@[i]),
            decreases end,
        {
            end = end - 1;
        }
        proof {
            assert(end > start) by {
                if end == start {
                    assert(is_space(s@[start as int]));
                }
            }
            assert(!is_space(s@[end - 1]));
            lemma_trailing_spaces_is(s@, len - end);
        }
        s.substring_char(start, end)
    }
}

/// The lines of `s`, split on `'\n'`. An empty text has one empty line;
/// a trailing `'\n'` produces a final empty line, as `str::split` does.
pub open spec fn split_lines(s: Seq<char>) -> Seq<Seq<char>>
    decreases s.len(),
{
    if s.len() == 0 {
        seq![Seq::empty()]
    } else if s[0] == '\n' {
        seq![Seq::<char>::empty()] + split_lines(s.skip(1))
    } else {
        let rest = split_lines(s.skip(1));
        rest.update(0, seq![s[0]] + rest[0])
    }
}

pub proof fn lemma_split_lines_len(s: Seq<char>)
    ensures
        split_lines(s).len() >= 1,
    decreases s.len(),
{
    if s.len() == 0 {
    } else if s[0] == '\n' {
        lemma_split_lines_len(s.skip(1));
    } else {
        lemma_split_lines_len(s.skip(1));
    }
}

/// Splitting peels off the first line whole: if the first `'\n'` of `s`
/// stands at `k` (or `k` is the length and `s` has none), the lines of `s`
/// are `s[..k]` followed by the lines of `s[k+1..]`.
pub proof fn lemma_split_lines_first(s: Seq<char>, k: int)
    requires
        0 <= k <= s.len(),
        forall|i: int| 0 <= i < k ==> s[i] != '\n',
        k == s.len() || s[k] == '\n',
    ensures
        k == s.len() ==> split_lines(s) == seq![s],
        k < s.len() ==> split_lines(s) == seq![s.subrange(0, k)] + split_lines(
            s.subrange(k + 1, s.len() as int),
        ),
    decreases k,
{
    if k == 0 {
        if s.len() == 0 {
            assert(s =~= Seq::<char>::empty());
            assert(split_lines(s) =~= seq![s]);
        } else {
            assert(s[0] == '\n');
            assert(s.skip(1) =~= s.subrange(1, s.len() as int));
            assert(s.subrange(0, 0) =~= Seq::<char>::empty());
            assert(split_lines(s) =~= seq![s.subrange(0, 0)] + split_lines(
                s.subrange(1, s.len() as int),
            ));
        }
    } else {
        assert(s[0] != '\n');
        let t = s.skip(1);
        assert(forall|i: int| 0 <= i < k - 1 ==> t[i] == s[i + 1]);
        lemma_split_lines_first(t, k - 1);
        lemma_split_lines_len(t);
        let rest = split_lines(t);
        if k == s.len() {
            assert(rest == seq![t]);
            assert(seq![s[0]] + t =~= s);
            assert(split_lines(s) =~= seq![s]);
        } else {
            assert(rest == seq![t.subrange(0, k - 1)] + split_lines(
                t.subrange(k, t.len() as int),
            ));
            assert(seq![s[0]] + t.subrange(0, k - 1) =~= s.subrange(0, k));
            assert(t.subrange(k, t.len() as int) =~= s.subrange(k + 1, s.len() as int));
            assert(split_lines(s) =~= seq![s.subrange(0, k)] + split_lines(
                s.subrange(k + 1, s.len() as int),
            ));
        }
    }
}

/// Splits `s` into its lines, as `split_lines` describes.
pub fn lines_of(s: &str) -> (r: Vec<String>)
    ensures
        r.deep_view() == split_lines(s@),
{
    let len = s.unicode_len();
    let mut r: Vec<String> = Vec::new();
    let mut i: usize = 0;
    proof {
        assert(s@.skip(0) =~= s@);
        assert(r.deep_view() + split_lines(s@) =~= split_lines(s@));
    }
    loop
        invariant
            len == s@.len(),
            0 <= i <= len,
            split_lines(s@) == r.deep_view() + split_lines(s@.skip(i as int)),
        decreases len - i,
    {
        let mut j: usize = i;
        while j < len && s.get_char(j) != '\n'
            invariant
                len == s@.len(),
                i <= j <= len,
                forall|m: int| i <= m < j ==> s@[m] != '\n',
            decreases len - j,
        {
            j = j + 1;
        }
        let line = s.substring_char(i, j);
        r.push(String::from_str(line));
        proof {
            let t = s@.skip(i as int);
            assert(forall|m: int| 0 <= m < j - i ==> t[m] == s@[m + i] && t[m] != '\n');
            lemma_split_lines_first(t, j - i);
            assert(t.subrange(0, j - i) =~= s@.subrange(i as int, j as int));
            if j < len {
                assert(t.subrange(j - i + 1, t.len() as int) =~= s@.skip(j + 1));
            }
        }
        if j == len {
            proof {
                assert(split_lines(s@.skip(i as int)) == seq![s@.subrange(i as int, j as int)]);
                assert(r.deep_view() =~= split_lines(s@));
            }
            return r;
        }
        proof {
            assert(split_lines(s@.skip(i as int)) == seq![s@.subrange(i as int, j as int)]
                + split_lines(s@.skip(j + 1)));
            assert(r.deep_view() + split_lines(s@.skip(j + 1)) =~= split_lines(s@));
        }
        i = j + 1;
    }
}

/// The whitespace-separated tokens of `s`, in order.
pub open spec fn tokens_of(s: Seq<char>) -> Seq<Seq<char>>
    decreases s.len(),
{
    if s.len() == 0 {
        Seq::empty()
    } else if is_space(s[0]) {
        tokens_of(s.skip(1))
    } else if s.len() >= 2 && !is_space(s[1]) {
        let rest = tokens_of(s.skip(1));
        rest.update(0, seq![s[0]] + rest[0])
    } else {
        seq![seq![s[0]]] + tokens_of(s.skip(1))
    }
}

/// Tokenizing peels off the first token whole: if `s` starts with a maximal
/// run of `k` non-whitespace characters, the tokens of `s` are `s[..k]`
/// followed by the tokens of `s[k..]`.
pub proof fn lemma_tokens_first(s: Seq<char>, k: int)
    requires
        0 < k <= s.len(),
        forall|i: int| 0 <= i < k ==> !is_space(s[i]),
        k == s.len() || is_space(s[k]),
    ensures
        tokens_of(s) == seq![s.subrange(0, k)] + tokens_of(s.skip(k)),
    decreases k,
{
    let t = s.skip(1);
    assert(forall|i: int| 0 <= i < k - 1 ==> t[i] == s[i + 1]);
    if k == 1 {
        if s.len() >= 2 {
            assert(is_space(s[1]));
        }
        assert(s.subrange(0, 1) =~= seq![s[0]]);
        assert(t =~= s.skip(1));
        assert(tokens_of(s) =~= seq![s.subrange(0, 1)] + tokens_of(s.skip(1)));
    } else {
        assert(!is_space(s[1]));
        lemma_tokens_first(t, k - 1);
        let rest = tokens_of(t);
        assert(rest == seq![t.subrange(0, k - 1)] + tokens_of(t.skip(k - 1)));
        assert(seq![s[0]] + t.subrange(0, k - 1) =~= s.subrange(0, k));
        assert(t.skip(k - 1) =~= s.skip(k));
        assert(tokens_of(s) =~= seq![s.subrange(0, k)] + tokens_of(s.skip(k)));
    }
}

/// Splits `s` on runs of whitespace, as `tokens_of` describes.
pub fn tokens(s: &str) -> (r: Vec<String>)
    ensures
        r.deep_view() == tokens_of(s@),
{
    let len = s.unicode_len();
    let mut r: Vec<String> = Vec::new();
    let mut i: usize = 0;
    proof {
        assert(s@.skip(0) =~= s@);
        assert(r.deep_view() + tokens_of(s@) =~= tokens_of(s@));
    }
    while i < len
        invariant
            len == s@.len(),
            0 <= i <= len,
            tokens_of(s@) == r.deep_view() + tokens_of(s@.skip(i as int)),
        decreases len - i,
    {
        if is_space_char(s.get_char(i)) {
            proof {
                assert(s@.skip(i as int).skip(1) =~= s@.skip(i + 1));
            }
            i = i + 1;
        } else {
            let mut j: usize = i + 1;
            while j < len && !is_space_char(s.get_char(j))
                invariant
                    len == s@.len(),
                    i < j <= len,
                    forall|m: int| i <= m < j ==> !is_space(s@[m]),
                decreases len - j,
            {
                j = j + 1;
            }
            let tok = s.substring_char(i, j);
            r.push(String::from_str(tok));
            proof {
                let t = s@.skip(i as int);
                assert(forall|m: int| 0 <= m < j - i ==> t[m] == s@[m + i] && !is_space(t[m]));
                lemma_tokens_first(t, j - i);
                assert(t.subrange(0, j - i) =~= s@.subrange(i as int, j as int));
                assert(t.skip(j - i) =~= s@.skip(j as int));
                assert(r.deep_view() + tokens_of(s@.skip(j as int)) =~= tokens_of(s@));
            }
            i = j;
        }
    }
    proof {
        assert(s@.skip(len as int) =~= Seq::<char>::empty());
        assert(r.deep_view() =~= tokens_of(s@));
    }
    r
}

/// Compares two strings character by character.
pub fn str_eq(a: &str, b: &str) -> (r: bool)
    ensures
        r == (a@ == b@),
{
    let la = a.unicode_len();
    let lb = b.unicode_len();
    if la != lb {
        return false;
    }
    let mut i: usize = 0;
    while i < la
        invariant
            la == a@.len(),
            la == b@.len(),
            0 <= i <= la,
            forall|m: int| 0 <= m < i ==> a@[m] == b@[m],
        decreases la - i,
    {
        if a.get_char(i) != b.get_char(i) {
            return false;
        }
        i = i + 1;
    }
    proof {
        assert(a@ =~= b@);
    }
    true
}

/// The arguments joined by single spaces, the text a placeholder stands for.
pub open spec fn joined_args(args: Seq<Seq<char>>) -> Seq<char>
    decreases args.len(),
{
    if args.len() == 0 {
        Seq::empty()
    } else if args.len() == 1 {
        args[0]
    } else {
        joined_args(args.drop_last()) + seq![' '] + args.last()
    }
}

/// The plain placeholder `$@` stands at position `i` of `s`.
pub open spec fn plain_at(s: Seq<char>, i: int) -> bool {
    0 <= i && i + 2 <= s.len() && s[i] == '$' && s[i + 1] == '@'
}

/// The braced placeholder `${@}` stands at position `i` of `s`.
pub open spec fn braced_at(s: Seq<char>, i: int) -> bool {
    0 <= i && i + 4 <= s.len() && s[i] == '$' && s[i + 1] == '{' && s[i + 2] == '@' && s[i + 3]
        == '}'
}

/// Some argument placeholder stands at position `i` of `s`.
pub open spec fn placeholder_at(s: Seq<char>, i: int) -> bool {
    plain_at(s, i) || braced_at(s, i)
}

pub open spec fn has_placeholder(s: Seq<char>) -> bool {
    exists|i: int| placeholder_at(s, i)
}

/// `s` with every occurrence of `$@` and `${@}` replaced by `j`, scanning
/// left to right; characters inserted for one occurrence are not rescanned.
pub open spec fn subst(s: Seq<char>, j: Seq<char>) -> Seq<char>
    decreases s.len(),
{
    if s.len() == 0 {
        s
    } else if braced_at(s, 0) {
        j + subst(s.skip(4), j)
    } else if plain_at(s, 0) {
        j + subst(s.skip(2), j)
    } else {
        seq![s[0]] + subst(s.skip(1), j)
    }
}

/// Joins the arguments with single spaces, as `joined_args` describes.
pub fn join_args(args: &Vec<String>) -> (r: String)
    ensures
        r@ == joined_args(args.deep_view()),
{
    let ghost all = args.deep_view();
    let mut r = String::new();
    let mut i: usize = 0;
    while i < args.len()
        invariant
            all == args.deep_view(),
            0 <= i <= args.len(),
            r@ == joined_args(all.take(i as int)),
        decreases args.len() - i,
    {
        if i > 0 {
            r.append(" ");
            proof {
                reveal_strlit(" ");
                assert((" ")@ =~= seq![' ']);
            }
        }
        r.append(args[i].as_str());
        proof {
            let prev = all.take(i as int);
            let cur = all.take(i + 1);
            assert(cur.drop_last() =~= prev);
            assert(cur.last() == all[i as int]);
            if i == 0 {
                assert(joined_args(cur) == all[0]);
                assert(r@ =~= all[0]);
            } else {
                assert(joined_args(cur) == joined_args(prev) + seq![' '] + all[i as int]);
            }
        }
        i = i + 1;
    }
    proof {
        assert(all.take(args.len() as int) =~= all);
    }
    r
}

/// Replaces every `$@` and `${@}` in `body` with the arguments joined by
/// single spaces, as `subst` describes.
pub fn substitute_args(body: &str, args: &Vec<String>) -> (r: String)
    ensures
        r@ == subst(body@, joined_args(args.deep_view())),
{
    let j = join_args(args);
    let len = body.unicode_len();
    let mut r = String::new();
    let mut i: usize = 0;
    proof {
        assert(body@.skip(0) =~= body@);
        assert(r@ + subst(body@, j@) =~= subst(body@, j@));
    }
    while i < len
        invariant
            len == body@.len(),
            0 <= i <= len,
            j@ == joined_args(args.deep_view()),
            subst(body@, j@) == r@ + subst(body@.skip(i as int), j@),
        decreases len - i,
    {
        let ghost t = body@.skip(i as int);
        if len - i >= 4 && body.get_char(i) == '$' && body.get_char(i + 1) == '{'
            && body.get_char(i + 2) == '@' && body.get_char(i + 3) == '}' {
            r.append(j.as_str());
            proof {
                assert(braced_at(t, 0));
                assert(t.skip(4) =~= body@.skip(i + 4));
            }
            i = i + 4;
        } else if len - i >= 2 && body.get_char(i) == '$' && body.get_char(i + 1) == '@' {
            r.append(j.as_str());
            proof {
                assert(!braced_at(t, 0));
                assert(plain_at(t, 0));
                assert(t.skip(2) =~= body@.skip(i + 2));
            }
            i = i + 2;
        } else {
            let c = body.substring_char(i, i + 1);
            r.append(c);
            proof {
                assert(!braced_at(t, 0)) by {
                    if braced_at(t, 0) {
                        assert(body@[i as int] == '$' && body@[i + 1] == '{' && body@[i + 2] == '@'
                            && body@[i + 3] == '}');
                    }
                }
                assert(!plain_at(t, 0)) by {
                    if plain_at(t, 0) {
                        assert(body@[i as int] == '$' && body@[i + 1] == '@');
                    }
                }
                assert(c@ =~= seq![t[0]]);
                assert(t.skip(1) =~= body@.skip(i + 1));
            }
            i = i + 1;
        }
    }
    proof {
        assert(body@.skip(len as int) =~= Seq::<char>::empty());
        assert(r@ + subst(body@.skip(len as int), j@) =~= r@);
    }
    r
}

/// Substitution leaves a text without placeholders unchanged.
pub proof fn lemma_subst_identity(s: Seq<char>, j: Seq<char>)
    requires
        !has_placeholder(s),
    ensures
        subst(s, j) == s,
    decreases s.len(),
{
    if s.len() == 0 {
    } else {
        assert(!placeholder_at(s, 0));
        assert(!has_placeholder(s.skip(1))) by {
            if has_placeholder(s.skip(1)) {
                let i = choose|i: int| placeholder_at(s.skip(1), i);
                assert(forall|m: int| 0 <= m < s.len() - 1 ==> s.skip(1)[m] == s[m + 1]);
                assert(placeholder_at(s, i + 1));
            }
        }
        lemma_subst_identity(s.skip(1), j);
        assert(seq![s[0]] + s.skip(1) =~= s);
    }
}

/// If the substituted text starts with a character that `j` does not start
/// with, that character was copied from the source.
proof fn lemma_subst_starts_copy(t: Seq<char>, j: Seq<char>, c: char)
    requires
        j.len() > 0,
        j[0] != c,
        subst(t, j).len() > 0,
        subst(t, j)[0] == c,
    ensures
        t.len() > 0,
        t[0] == c,
        !placeholder_at(t, 0),
        subst(t, j) == seq![c] + subst(t.skip(1), j),
{
    if t.len() == 0 {
        assert(false);
    } else if braced_at(t, 0) || plain_at(t, 0) {
        assert(subst(t, j)[0] == j[0]);
        assert(false);
    } else {
        assert(subst(t, j) == seq![t[0]] + subst(t.skip(1), j));
        assert(subst(t, j)[0] == t[0]);
    }
}

/// The characters that placeholders are spelled from. When the replacement
/// text avoids them (and is nonempty), substitution cannot manufacture a
/// new placeholder.
pub open spec fn placeholder_char(c: char) -> bool {
    c == '$' || c == '@' || c == '{' || c == '}'
}

/// A nonempty replacement text free of `$`, `@`, `{` and `}` yields a
/// substituted text with no placeholder left in it.
pub proof fn lemma_subst_free(s: Seq<char>, j: Seq<char>)
    requires
        j.len() > 0,
        forall|i: int| 0 <= i < j.len() ==> !placeholder_char(j[i]),
    ensures
        !has_placeholder(subst(s, j)),
    decreases s.len(),
{
    let r = subst(s, j);
    if s.len() == 0 {
        assert(!has_placeholder(r)) by {
            if has_placeholder(r) {
                let p = choose|p: int| placeholder_at(r, p);
                assert(placeholder_at(r, p));
            }
        }
    } else if braced_at(s, 0) || plain_at(s, 0) {
        let skip_n: int = if braced_at(s, 0) {
            4
        } else {
            2
        };
        let r1 = subst(s.skip(skip_n), j);
        assert(r == j + r1);
        lemma_subst_free(s.skip(skip_n), j);
        assert(!has_placeholder(r)) by {
            if has_placeholder(r) {
                let p = choose|p: int| placeholder_at(r, p);
                assert(r[p] == '$');
                assert(p >= j.len()) by {
                    if p < j.len() {
                        assert(!placeholder_char(j[p]));
                    }
                }
                assert(placeholder_at(r1, p - j.len()));
            }
        }
    } else {
        let r1 = subst(s.skip(1), j);
        assert(r == seq![s[0]] + r1);
        lemma_subst_free(s.skip(1), j);
        assert(!has_placeholder(r)) by {
            if has_placeholder(r) {
                let p = choose|p: int| placeholder_at(r, p);
                if p >= 1 {
                    assert(placeholder_at(r1, p - 1));
                } else {
                    assert(r[0] == s[0] && s[0] == '$');
                    if plain_at(r, 0) {
                        assert(r1[0] == '@');
                        lemma_subst_starts_copy(s.skip(1), j, '@');
                        assert(s[1] == '@');
                        assert(plain_at(s, 0));
                    } else {
                        assert(braced_at(r, 0));
                        assert(r1[0] == '{');
                        lemma_subst_starts_copy(s.skip(1), j, '{');
                        assert(s[1] == '{');
                        let r2 = subst(s.skip(1).skip(1), j);
                        assert(s.skip(1).skip(1) =~= s.skip(2));
                        assert(r1 == seq!['{'] + r2);
                        assert(r2[0] == r1[1] && r1[1] == r[2] && r[2] == '@');
                        lemma_subst_starts_copy(s.skip(2), j, '@');
                        assert(s[2] == '@');
                        let r3 = subst(s.skip(2).skip(1), j);
                        assert(s.skip(2).skip(1) =~= s.skip(3));
                        assert(r2 == seq!['@'] + r3);
                        assert(r3[0] == r2[1] && r2[1] == r1[2] && r1[2] == r[3] && r[3] == '}');
                        lemma_subst_starts_copy(s.skip(3), j, '}');
                        assert(s[3] == '}');
                        assert(braced_at(s, 0));
                    }
                }
            }
        }
    }
}

/// Placeholder substitution is idempotent: substituting again in the result
/// changes nothing, provided the replacement text `j` (the arguments joined
/// by spaces) is nonempty and spells no placeholder character itself.
pub proof fn lemma_subst_idempotent(body: Seq<char>, j: Seq<char>)
    requires
        j.len() > 0,
        forall|i: int| 0 <= i < j.len() ==> !placeholder_char(j[i]),
    ensures
        subst(subst(body, j), j) == subst(body, j),
{
    lemma_subst_free(body, j);
    lemma_subst_identity(subst(body, j), j);
}

/// Every character of the joined arguments comes from some argument or is
/// the joining space.
pub proof fn lemma_joined_args_chars(args: Seq<Seq<char>>)
    ensures
        forall|k: int|
            0 <= k < joined_args(args).len() ==> (joined_args(args)[k] == ' ' || exists|i: int, m: int|
                0 <= i < args.len() && 0 <= m < args[i].len() && args[i][m] == joined_args(
                    args,
                )[k]),
    decreases args.len(),
{
    if args.len() <= 1 {
    } else {
        lemma_joined_args_chars(args.drop_last());
        let front = joined_args(args.drop_last());
        let whole = joined_args(args);
        assert forall|k: int| 0 <= k < whole.len() implies (whole[k] == ' ' || exists|i: int, m: int|
            0 <= i < args.len() && 0 <= m < args[i].len() && args[i][m] == whole[k]) by {
            if k < front.len() {
                assert(whole[k] == front[k]);
                if front[k] != ' ' {
                    let (i, m): (int, int) = choose|i: int, m: int|
                        0 <= i < args.drop_last().len() && 0 <= m < args.drop_last()[i].len()
                            && args.drop_last()[i][m] == front[k];
                    assert(args[i] == args.drop_last()[i]);
                    assert(args[i][m] == whole[k]);
                }
            } else if k == front.len() {
                assert(whole[k] == ' ');
            } else {
                let m = k - front.len() - 1;
                assert(whole[k] == args.last()[m]);
                assert(args[args.len() - 1][m] == whole[k]);
            }
        }
    }
}

/// Placeholder substitution with a concrete argument list is idempotent,
/// provided some argument is nonempty and no argument spells a placeholder
/// character (`$`, `@`, `{`, `}`).
pub proof fn lemma_substitute_idempotent(body: Seq<char>, args: Seq<Seq<char>>)
    requires
        args.len() > 0,
        args.len() == 1 ==> args[0].len() > 0,
        forall|i: int, m: int|
            0 <= i < args.len() && 0 <= m < args[i].len() ==> !placeholder_char(args[i][m]),
    ensures
        subst(subst(body, joined_args(args)), joined_args(args)) == subst(body, joined_args(args)),
{
    let j = joined_args(args);
    assert(j.len() > 0) by {
        if args.len() >= 2 {
            lemma_joined_len(args);
        }
    }
    lemma_joined_args_chars(args);
    assert forall|k: int| 0 <= k < j.len() implies !placeholder_char(j[k]) by {
        if j[k] != ' ' {
            let (i, m): (int, int) = choose|i: int, m: int|
                0 <= i < args.len() && 0 <= m < args[i].len() && args[i][m] == j[k];
            assert(!placeholder_char(args[i][m]));
        }
    }
    lemma_subst_idempotent(body, j);
}

/// Joining two or more arguments yields a nonempty text (it contains the
/// joining spaces).
proof fn lemma_joined_len(args: Seq<Seq<char>>)
    requires
        args.len() >= 2,
    ensures
        joined_args(args).len() > 0,
{
}

} // verus!
