//! Normalisation of search text and expansion of a query into search terms.
use vstd::prelude::*;
use vstd::string::StrSliceExecFns;
use crate::text::{
    self, chars_of, contains_exec, slice_chars, split_whitespace_chars, is_alphanumeric, is_whitespace, remove_spaces, replace_chars, string_from_chars,
    to_lowercase, trim_chars, trimmed,
};

verus! {

/// Characters that separate words in search text besides whitespace.
pub open spec fn is_separator(c: char) -> bool {
    c == '-' || c == '_' || c == '\'' || c == '`' || c == '\u{2019}'
}

/// Scans `s`, keeping alphanumeric characters and turning each run of
/// whitespace or separators into one space; also returns whether the
/// output ends in such a space.
pub open spec fn collapse(s: Seq<char>) -> (Seq<char>, bool)
    decreases s.len(),
{
    if s.len() == 0 {
        (seq![], false)
    } else {
        let (out, last_space) = collapse(s.drop_last());
        let c = s.last();
        if text::spec_is_alphanumeric(c) {
            (out.push(c), false)
        } else if (text::spec_is_whitespace(c) || is_separator(c)) && !last_space {
            (out.push(' '), true)
        } else {
            (out, last_space)
        }
    }
}

/// The normal form of search text: trimmed, lowercased, reduced to
/// alphanumeric characters and single spaces, trimmed again.
pub open spec fn normalized(v: Seq<char>) -> Seq<char> {
    text::trim_seq(collapse(text::spec_to_lowercase(text::trim_seq(v))).0)
}

/// The normal form of `v` with its spaces removed.
pub open spec fn compacted(v: Seq<char>) -> Seq<char> {
    text::without_spaces(normalized(v))
}

proof fn lemma_collapse_alphanumeric(s: Seq<char>)
    requires
        forall|i: int| 0 <= i < s.len() ==> text::spec_is_alphanumeric(#[trigger] s[i]),
    ensures
        collapse(s) == (s, false),
    decreases s.len(),
{
    if s.len() > 0 {
        let init = s.drop_last();
        assert forall|i: int| 0 <= i < init.len() implies text::spec_is_alphanumeric(
            #[trigger] init[i],
        ) by {
            assert(init[i] == s[i]);
        }
        lemma_collapse_alphanumeric(init);
        assert(text::spec_is_alphanumeric(s[s.len() - 1]));
        assert(init.push(s.last()) =~= s);
    }
}

/// Normalisation keeps every letter and digit: a text whose trimmed,
/// lowercased form `s` is made of alphanumeric characters only (none of
/// them whitespace at the ends) normalises to `s` itself, whatever script
/// it is written in.
pub proof fn lemma_normalized_keeps_alphanumeric(v: Seq<char>)
    requires
        forall|i: int|
            0 <= i < text::spec_to_lowercase(text::trim_seq(v)).len() ==> text::spec_is_alphanumeric(
                #[trigger] text::spec_to_lowercase(text::trim_seq(v))[i],
            ),
        text::spec_to_lowercase(text::trim_seq(v)).len() > 0 ==> !text::spec_is_whitespace(
            text::spec_to_lowercase(text::trim_seq(v))[0],
        ) && !text::spec_is_whitespace(text::spec_to_lowercase(text::trim_seq(v)).last()),
    ensures
        normalized(v) == text::spec_to_lowercase(text::trim_seq(v)),
{
    let s = text::spec_to_lowercase(text::trim_seq(v));
    lemma_collapse_alphanumeric(s);
    assert(text::trim_start_seq(s) == s);
    assert(text::trim_end_seq(s) == s);
}

/// The scan behind normalisation keeps the alphanumeric characters of its
/// input, all of them and in order, and adds none (the spaces it writes
/// not being alphanumeric).
pub proof fn lemma_collapse_keeps_alphanumeric(s: Seq<char>)
    requires
        !text::spec_is_alphanumeric(' '),
    ensures
        collapse(s).0.filter(|c: char| text::spec_is_alphanumeric(c)) == s.filter(
            |c: char| text::spec_is_alphanumeric(c),
        ),
    decreases s.len(),
{
    reveal(Seq::filter);
    if s.len() > 0 {
        lemma_collapse_keeps_alphanumeric(s.drop_last());
        let (out, last_space) = collapse(s.drop_last());
        let c = s.last();
        assert(out.push(c).drop_last() =~= out);
        assert(out.push(' ').drop_last() =~= out);
    }
}

proof fn lemma_collapse_append_alphanumeric(p: Seq<char>, b: Seq<char>)
    requires
        b.len() > 0,
        forall|i: int| 0 <= i < b.len() ==> text::spec_is_alphanumeric(#[trigger] b[i]),
    ensures
        collapse(p + b) == (collapse(p).0 + b, false),
    decreases b.len(),
{
    let init = b.drop_last();
    assert((p + b).drop_last() =~= p + init);
    assert((p + b).last() == b.last());
    assert(text::spec_is_alphanumeric(b[b.len() - 1]));
    if init.len() == 0 {
        assert(p + init =~= p);
        assert(collapse(p).0 + b =~= collapse(p).0.push(b.last()));
    } else {
        assert forall|i: int| 0 <= i < init.len() implies text::spec_is_alphanumeric(#[trigger] init[i]) by {
            assert(init[i] == b[i]);
        }
        lemma_collapse_append_alphanumeric(p, init);
        assert((collapse(p).0 + init).push(b.last()) =~= collapse(p).0 + b);
    }
}

/// Two words of letters and digits joined by one whitespace character or
/// word separator (`-`, `_`, apostrophes, backquote) come out of the scan
/// joined by exactly one space.
pub proof fn lemma_collapse_joins_words(a: Seq<char>, sep: char, b: Seq<char>)
    requires
        a.len() > 0,
        b.len() > 0,
        forall|i: int| 0 <= i < a.len() ==> text::spec_is_alphanumeric(#[trigger] a[i]),
        forall|i: int| 0 <= i < b.len() ==> text::spec_is_alphanumeric(#[trigger] b[i]),
        text::spec_is_whitespace(sep) || is_separator(sep),
        !text::spec_is_alphanumeric(sep),
    ensures
        collapse(a + seq![sep] + b).0 == a + seq![' '] + b,
{
    lemma_collapse_alphanumeric(a);
    let p = a + seq![sep];
    assert(p.drop_last() =~= a);
    assert(p.last() == sep);
    assert(collapse(p) == (a.push(' '), true));
    lemma_collapse_append_alphanumeric(p, b);
    assert(a.push(' ') + b =~= a + seq![' '] + b);
}

/// The scan behind normalisation writes only alphanumeric characters and
/// single spaces: every character it writes is alphanumeric or a space, no
/// two spaces are adjacent, and its flag says whether it ended in a space.
/// (Stated for the case that a space is not alphanumeric, as in Unicode.)
pub proof fn lemma_collapse_shape(s: Seq<char>)
    requires
        !text::spec_is_alphanumeric(' '),
    ensures
        ({
            let (out, last_space) = collapse(s);
            &&& forall|i: int|
                0 <= i < out.len() ==> text::spec_is_alphanumeric(#[trigger] out[i]) || out[i] == ' '
            &&& forall|i: int| 0 <= i < out.len() - 1 ==> !(#[trigger] out[i] == ' ' && out[i + 1] == ' ')
            &&& last_space <==> (out.len() > 0 && out.last() == ' ')
        }),
    decreases s.len(),
{
    if s.len() > 0 {
        lemma_collapse_shape(s.drop_last());
        let (out, last_space) = collapse(s.drop_last());
        let c = s.last();
        let r = collapse(s).0;
        if text::spec_is_alphanumeric(s.last()) {
            assert(r =~= out.push(c));
            assert forall|i: int| 0 <= i < r.len() - 1 implies !(#[trigger] r[i] == ' ' && r[i + 1] == ' ') by {
                if i + 1 == out.len() {
                    assert(r[i + 1] == c);
                } else {
                    assert(r[i] == out[i] && r[i + 1] == out[i + 1]);
                }
            }
            assert forall|i: int| 0 <= i < r.len() implies text::spec_is_alphanumeric(#[trigger] r[i]) || r[i] == ' ' by {
                if i < out.len() {
                    assert(r[i] == out[i]);
                }
            }
        } else if (text::spec_is_whitespace(c) || is_separator(c)) && !last_space {
            assert(r =~= out.push(' '));
            assert forall|i: int| 0 <= i < r.len() - 1 implies !(#[trigger] r[i] == ' ' && r[i + 1] == ' ') by {
                if i + 1 == out.len() {
                    assert(r[i] == out.last());
                } else {
                    assert(r[i] == out[i] && r[i + 1] == out[i + 1]);
                }
            }
            assert forall|i: int| 0 <= i < r.len() implies text::spec_is_alphanumeric(#[trigger] r[i]) || r[i] == ' ' by {
                if i < out.len() {
                    assert(r[i] == out[i]);
                }
            }
        }
    }
}

/// The normal form of `value`, as characters.
fn normalize_chars(value: &str) -> (r: Vec<char>)
    ensures
        r@ == normalized(value@),
{
    let t = trimmed(value);
    let lower = to_lowercase(t.as_str());
    let chars = chars_of(lower.as_str());
    let n = chars.len();
    let mut out: Vec<char> = Vec::new();
    let mut last_space = false;
    let mut i: usize = 0;
    while i < n
        invariant
            n == chars@.len(),
            chars@ == text::spec_to_lowercase(text::trim_seq(value@)),
            i <= n,
            (out@, last_space) == collapse(chars@.take(i as int)),
        decreases n - i,
    {
        assert(chars@.take(i + 1).drop_last() =~= chars@.take(i as int));
        let c = chars[i];
        if is_alphanumeric(c) {
            out.push(c);
            last_space = false;
        } else if (is_whitespace(c) || c == '-' || c == '_' || c == '\'' || c == '`' || c
            == '\u{2019}') && !last_space {
            out.push(' ');
            last_space = true;
        }
        i = i + 1;
    }
    assert(chars@.take(n as int) =~= chars@);
    trim_chars(&out)
}

/// Lowercases `value`, keeps its letters and digits, turns every run of
/// whitespace, `-`, `_`, `'`, `` ` `` or `’` into a single space, and trims.
pub fn normalized_search_text(value: &str) -> (r: String)
    ensures
        r@ == normalized(value@),
{
    let v = normalize_chars(value);
    string_from_chars(&v)
}

/// The normal form of `value` with all spaces removed.
pub fn compact_field(value: &str) -> (r: String)
    ensures
        r@ == compacted(value@),
{
    let v = normalize_chars(value);
    let c = remove_spaces(&v);
    string_from_chars(&c)
}

/// The first whitespace-separated word of `value`, or `""` when it has none.
pub fn first_token(value: &str) -> (r: &str)
    ensures
        r@ == text::first_word(value@),
{
    let v = chars_of(value);
    let n = v.len();
    let mut i: usize = 0;
    assert(v@.skip(0) =~= v@);
    while i < n && is_whitespace(v[i])
        invariant
            n == v@.len(),
            i <= n,
            text::trim_start_seq(v@) == text::trim_start_seq(v@.skip(i as int)),
        decreases n - i,
    {
        assert(v@.skip(i as int).drop_first() =~= v@.skip(i + 1));
        i = i + 1;
    }
    let mut j: usize = i;
    assert(v@.subrange(i as int, i as int) =~= Seq::<char>::empty());
    assert(Seq::<char>::empty() + text::leading_word(v@.skip(i as int)) =~= text::leading_word(v@.skip(i as int)));
    while j < n && !is_whitespace(v[j])
        invariant
            n == v@.len(),
            i <= j <= n,
            text::trim_start_seq(v@) == v@.skip(i as int),
            text::leading_word(v@.skip(i as int)) == v@.subrange(i as int, j as int) + text::leading_word(
                v@.skip(j as int),
            ),
        decreases n - j,
    {
        assert(v@.skip(j as int).drop_first() =~= v@.skip(j + 1));
        assert(v@.subrange(i as int, j + 1) =~= v@.subrange(i as int, j as int) + seq![v@[j as int]]);
        j = j + 1;
    }
    assert(text::leading_word(v@.skip(j as int)) =~= Seq::<char>::empty());
    assert(v@.subrange(i as int, j as int) + Seq::<char>::empty() =~= v@.subrange(i as int, j as int));
    value.substring_char(i, j)
}

} // verus!

verus! {

/// The Uzbek Cyrillic-to-Latin replacements, applied in this order.
pub open spec fn uzbek_pairs() -> Seq<(Seq<char>, Seq<char>)> {
    seq![
        ("o'"@, "o"@),
        ("g'"@, "g"@),
        ("sh"@, "s"@),
        ("ch"@, "c"@),
        ("yo"@, "io"@),
        ("yu"@, "iu"@),
        ("ya"@, "ia"@),
        ("ё"@, "yo"@),
        ("ю"@, "yu"@),
        ("я"@, "ya"@),
        ("ш"@, "sh"@),
        ("ч"@, "ch"@),
        ("ғ"@, "g"@),
        ("ў"@, "o"@),
        ("қ"@, "q"@),
        ("ҳ"@, "h"@),
        ("й"@, "y"@),
        ("ц"@, "s"@),
        ("ы"@, "i"@),
        ("э"@, "e"@),
        ("ъ"@, ""@),
        ("ь"@, ""@),
        ("а"@, "a"@),
        ("б"@, "b"@),
        ("в"@, "v"@),
        ("г"@, "g"@),
        ("д"@, "d"@),
        ("е"@, "e"@),
        ("ж"@, "j"@),
        ("з"@, "z"@),
        ("и"@, "i"@),
        ("к"@, "k"@),
        ("л"@, "l"@),
        ("м"@, "m"@),
        ("н"@, "n"@),
        ("о"@, "o"@),
        ("п"@, "p"@),
        ("р"@, "r"@),
        ("с"@, "s"@),
        ("т"@, "t"@),
        ("у"@, "u"@),
        ("ф"@, "f"@),
        ("х"@, "x"@)
    ]
}

/// The views of a table of string pairs.
pub open spec fn pairs_view(t: Seq<(&str, &str)>) -> Seq<(Seq<char>, Seq<char>)> {
    t.map_values(|p: (&str, &str)| (p.0@, p.1@))
}

/// `s` after each pair's replacement, applied in order.
pub open spec fn apply_pairs(s: Seq<char>, pairs: Seq<(Seq<char>, Seq<char>)>) -> Seq<char>
    decreases pairs.len(),
{
    if pairs.len() == 0 {
        s
    } else {
        let p = pairs.last();
        text::replace_all(apply_pairs(s, pairs.drop_last()), p.0, p.1)
    }
}

/// The lowercase form of `v` with Uzbek Cyrillic spellings replaced by Latin ones.
pub open spec fn transliterated(v: Seq<char>) -> Seq<char> {
    apply_pairs(text::spec_to_lowercase(v), uzbek_pairs())
}

proof fn lemma_uzbek_patterns_nonempty()
    ensures
        forall|k: int| 0 <= k < uzbek_pairs().len() ==> #[trigger] uzbek_pairs()[k].0.len() > 0,
{
    reveal_strlit("o'");
    reveal_strlit("g'");
    reveal_strlit("sh");
    reveal_strlit("ch");
    reveal_strlit("yo");
    reveal_strlit("yu");
    reveal_strlit("ya");
    reveal_strlit("ё");
    reveal_strlit("ю");
    reveal_strlit("я");
    reveal_strlit("ш");
    reveal_strlit("ч");
    reveal_strlit("ғ");
    reveal_strlit("ў");
    reveal_strlit("қ");
    reveal_strlit("ҳ");
    reveal_strlit("й");
    reveal_strlit("ц");
    reveal_strlit("ы");
    reveal_strlit("э");
    reveal_strlit("ъ");
    reveal_strlit("ь");
    reveal_strlit("а");
    reveal_strlit("б");
    reveal_strlit("в");
    reveal_strlit("г");
    reveal_strlit("д");
    reveal_strlit("е");
    reveal_strlit("ж");
    reveal_strlit("з");
    reveal_strlit("и");
    reveal_strlit("к");
    reveal_strlit("л");
    reveal_strlit("м");
    reveal_strlit("н");
    reveal_strlit("о");
    reveal_strlit("п");
    reveal_strlit("р");
    reveal_strlit("с");
    reveal_strlit("т");
    reveal_strlit("у");
    reveal_strlit("ф");
    reveal_strlit("х");
}

/// Whether every character of `s` is ASCII.
pub open spec fn ascii_only(s: Seq<char>) -> bool {
    forall|i: int| 0 <= i < s.len() ==> (#[trigger] s[i]) < '\u{80}'
}

/// Whether `c` is one of the single letters that the transliteration replaces.
pub open spec fn is_mapped_letter(c: char) -> bool {
    exists|k: int| 0 <= k < uzbek_pairs().len() && #[trigger] uzbek_pairs()[k].0 == seq![c]
}

proof fn lemma_uzbek_replacements_ascii()
    ensures
        forall|k: int| 0 <= k < uzbek_pairs().len() ==> ascii_only(#[trigger] uzbek_pairs()[k].1),
        forall|k: int|
            0 <= k < uzbek_pairs().len() && (#[trigger] uzbek_pairs()[k].0).len() == 1
                ==> uzbek_pairs()[k].0[0] >= '\u{80}',
{
    reveal_strlit("o");
    reveal_strlit("g");
    reveal_strlit("s");
    reveal_strlit("c");
    reveal_strlit("io");
    reveal_strlit("iu");
    reveal_strlit("ia");
    reveal_strlit("yo");
    reveal_strlit("yu");
    reveal_strlit("ya");
    reveal_strlit("sh");
    reveal_strlit("ch");
    reveal_strlit("h");
    reveal_strlit("q");
    reveal_strlit("y");
    reveal_strlit("i");
    reveal_strlit("e");
    reveal_strlit("");
    reveal_strlit("a");
    reveal_strlit("b");
    reveal_strlit("v");
    reveal_strlit("d");
    reveal_strlit("j");
    reveal_strlit("z");
    reveal_strlit("k");
    reveal_strlit("l");
    reveal_strlit("m");
    reveal_strlit("n");
    reveal_strlit("p");
    reveal_strlit("r");
    reveal_strlit("t");
    reveal_strlit("u");
    reveal_strlit("f");
    reveal_strlit("x");
    reveal_strlit("o'");
    reveal_strlit("g'");
    reveal_strlit("ё");
    reveal_strlit("ю");
    reveal_strlit("я");
    reveal_strlit("ш");
    reveal_strlit("ч");
    reveal_strlit("ғ");
    reveal_strlit("ў");
    reveal_strlit("қ");
    reveal_strlit("ҳ");
    reveal_strlit("й");
    reveal_strlit("ц");
    reveal_strlit("ы");
    reveal_strlit("э");
    reveal_strlit("ъ");
    reveal_strlit("ь");
    reveal_strlit("а");
    reveal_strlit("б");
    reveal_strlit("в");
    reveal_strlit("г");
    reveal_strlit("д");
    reveal_strlit("е");
    reveal_strlit("ж");
    reveal_strlit("з");
    reveal_strlit("и");
    reveal_strlit("к");
    reveal_strlit("л");
    reveal_strlit("м");
    reveal_strlit("н");
    reveal_strlit("о");
    reveal_strlit("п");
    reveal_strlit("р");
    reveal_strlit("с");
    reveal_strlit("т");
    reveal_strlit("у");
    reveal_strlit("ф");
    reveal_strlit("х");
}

proof fn lemma_replace_all_unchanged(s: Seq<char>, from: Seq<char>, to: Seq<char>)
    requires
        !text::contains_seq(s, from),
    ensures
        text::replace_all(s, from, to) == s,
    decreases s.len(),
{
    if s.len() > 0 && from.len() > 0 {
        if text::starts_with_seq(s, from) {
            assert(s.subrange(0, from.len() as int) =~= s.take(from.len() as int));
            assert(text::occurs_at(s, from, 0));
        } else {
            let t = s.drop_first();
            assert forall|i: int| !text::occurs_at(t, from, i) by {
                if text::occurs_at(t, from, i) {
                    assert(s.subrange(i + 1, i + 1 + from.len()) =~= t.subrange(i, i + from.len()));
                    assert(text::occurs_at(s, from, i + 1));
                }
            }
            lemma_replace_all_unchanged(t, from, to);
            assert(seq![s[0]] + t =~= s);
        }
    }
}

proof fn lemma_apply_pairs_unchanged(s: Seq<char>, pairs: Seq<(Seq<char>, Seq<char>)>)
    requires
        forall|k: int| 0 <= k < pairs.len() ==> !text::contains_seq(s, #[trigger] pairs[k].0),
    ensures
        apply_pairs(s, pairs) == s,
    decreases pairs.len(),
{
    if pairs.len() > 0 {
        lemma_apply_pairs_unchanged(s, pairs.drop_last());
        assert(pairs.last() == pairs[pairs.len() - 1]);
        lemma_replace_all_unchanged(s, pairs.last().0, pairs.last().1);
    }
}

/// A text whose lowercase form holds none of the transliteration patterns
/// is only lowercased.
pub proof fn lemma_transliterated_plain(v: Seq<char>)
    requires
        forall|k: int|
            0 <= k < uzbek_pairs().len() ==> !text::contains_seq(
                text::spec_to_lowercase(v),
                #[trigger] uzbek_pairs()[k].0,
            ),
    ensures
        transliterated(v) == text::spec_to_lowercase(v),
{
    lemma_apply_pairs_unchanged(text::spec_to_lowercase(v), uzbek_pairs());
}

proof fn lemma_replace_all_removes(s: Seq<char>, c: char, to: Seq<char>)
    requires
        !to.contains(c),
    ensures
        !text::replace_all(s, seq![c], to).contains(c),
    decreases s.len(),
{
    if s.len() > 0 {
        let p: Seq<char> = seq![c];
        if text::starts_with_seq(s, p) {
            let rest = s.skip(1);
            lemma_replace_all_removes(rest, c, to);
            let r = text::replace_all(rest, p, to);
            assert forall|i: int| 0 <= i < (to + r).len() implies (to + r)[i] != c by {
                if i >= to.len() {
                    assert((to + r)[i] == r[i - to.len()]);
                }
            }
        } else {
            assert(s.take(1) =~= seq![s[0]]);
            let t = s.drop_first();
            lemma_replace_all_removes(t, c, to);
            let r = text::replace_all(t, p, to);
            assert forall|i: int| 0 <= i < (seq![s[0]] + r).len() implies (seq![s[0]] + r)[i] != c by {
                if i >= 1 {
                    assert((seq![s[0]] + r)[i] == r[i - 1]);
                }
            }
        }
    }
}

proof fn lemma_replace_all_keeps_out(s: Seq<char>, from: Seq<char>, to: Seq<char>, c: char)
    requires
        !s.contains(c),
        !to.contains(c),
    ensures
        !text::replace_all(s, from, to).contains(c),
    decreases s.len(),
{
    if s.len() > 0 && from.len() > 0 {
        if text::starts_with_seq(s, from) {
            let rest = s.skip(from.len() as int);
            assert forall|i: int| 0 <= i < rest.len() implies rest[i] != c by {
                assert(rest[i] == s[i + from.len()]);
            }
            lemma_replace_all_keeps_out(rest, from, to, c);
            let r = text::replace_all(rest, from, to);
            assert forall|i: int| 0 <= i < (to + r).len() implies (to + r)[i] != c by {
                if i >= to.len() {
                    assert((to + r)[i] == r[i - to.len()]);
                }
            }
        } else {
            let t = s.drop_first();
            assert forall|i: int| 0 <= i < t.len() implies t[i] != c by {
                assert(t[i] == s[i + 1]);
            }
            lemma_replace_all_keeps_out(t, from, to, c);
            let r = text::replace_all(t, from, to);
            assert(s[0] != c);
            assert forall|i: int| 0 <= i < (seq![s[0]] + r).len() implies (seq![s[0]] + r)[i] != c by {
                if i >= 1 {
                    assert((seq![s[0]] + r)[i] == r[i - 1]);
                }
            }
        }
    }
}

proof fn lemma_ascii_lacks(s: Seq<char>, c: char)
    requires
        ascii_only(s),
        c >= '\u{80}',
    ensures
        !s.contains(c),
{
    if s.contains(c) {
        let i = choose|i: int| 0 <= i < s.len() && s[i] == c;
        assert(s[i] < '\u{80}');
    }
}

proof fn lemma_apply_pairs_removes(s: Seq<char>, pairs: Seq<(Seq<char>, Seq<char>)>, j: int, c: char)
    requires
        0 <= j < pairs.len(),
        pairs[j].0 == seq![c],
        c >= '\u{80}',
        forall|k: int| 0 <= k < pairs.len() ==> ascii_only(#[trigger] pairs[k].1),
    ensures
        !apply_pairs(s, pairs).contains(c),
    decreases pairs.len(),
{
    let last = pairs[pairs.len() - 1];
    assert(pairs.last() == last);
    assert(ascii_only(last.1));
    lemma_ascii_lacks(last.1, c);
    if j == pairs.len() - 1 {
        lemma_replace_all_removes(apply_pairs(s, pairs.drop_last()), c, last.1);
    } else {
        let init = pairs.drop_last();
        assert forall|k: int| 0 <= k < init.len() implies ascii_only(#[trigger] init[k].1) by {
            assert(init[k] == pairs[k]);
        }
        assert(init[j] == pairs[j]);
        lemma_apply_pairs_removes(s, init, j, c);
        lemma_replace_all_keeps_out(apply_pairs(s, init), last.0, last.1, c);
    }
}

/// No letter that the transliteration replaces is left in its result, and
/// none is brought back by a later replacement.
pub proof fn lemma_transliterated_no_mapped_letter(v: Seq<char>, c: char)
    requires
        is_mapped_letter(c),
    ensures
        !transliterated(v).contains(c),
{
    lemma_uzbek_replacements_ascii();
    let k = choose|k: int| 0 <= k < uzbek_pairs().len() && #[trigger] uzbek_pairs()[k].0 == seq![c];
    assert(uzbek_pairs()[k].0.len() == 1);
    assert(uzbek_pairs()[k].0[0] == c);
    lemma_apply_pairs_removes(text::spec_to_lowercase(v), uzbek_pairs(), k, c);
}

proof fn lemma_uzbek_letters_distinct()
    ensures
        forall|k: int|
            7 <= k < uzbek_pairs().len() ==> (#[trigger] uzbek_pairs()[k].0).len() == 1,
        forall|k: int| 0 <= k < 7 ==> (#[trigger] uzbek_pairs()[k].0).len() == 2,
        forall|j: int, k: int|
            7 <= j < k < uzbek_pairs().len() ==> (#[trigger] uzbek_pairs()[j].0)[0] != (
            #[trigger] uzbek_pairs()[k].0)[0],
{
    reveal_strlit("o'");
    reveal_strlit("g'");
    reveal_strlit("sh");
    reveal_strlit("ch");
    reveal_strlit("yo");
    reveal_strlit("yu");
    reveal_strlit("ya");
    reveal_strlit("ё");
    reveal_strlit("ю");
    reveal_strlit("я");
    reveal_strlit("ш");
    reveal_strlit("ч");
    reveal_strlit("ғ");
    reveal_strlit("ў");
    reveal_strlit("қ");
    reveal_strlit("ҳ");
    reveal_strlit("й");
    reveal_strlit("ц");
    reveal_strlit("ы");
    reveal_strlit("э");
    reveal_strlit("ъ");
    reveal_strlit("ь");
    reveal_strlit("а");
    reveal_strlit("б");
    reveal_strlit("в");
    reveal_strlit("г");
    reveal_strlit("д");
    reveal_strlit("е");
    reveal_strlit("ж");
    reveal_strlit("з");
    reveal_strlit("и");
    reveal_strlit("к");
    reveal_strlit("л");
    reveal_strlit("м");
    reveal_strlit("н");
    reveal_strlit("о");
    reveal_strlit("п");
    reveal_strlit("р");
    reveal_strlit("с");
    reveal_strlit("т");
    reveal_strlit("у");
    reveal_strlit("ф");
    reveal_strlit("х");
}

proof fn lemma_single_contains(c: char, p: Seq<char>)
    requires
        p.len() > 0,
        p != seq![c],
    ensures
        !text::contains_seq(seq![c], p),
{
    if text::contains_seq(seq![c], p) {
        let i = choose|i: int| text::occurs_at(seq![c], p, i);
        assert(seq![c].subrange(i, i + p.len()) =~= seq![c]);
    }
}

proof fn lemma_apply_pairs_pattern(p: Seq<char>, pairs: Seq<(Seq<char>, Seq<char>)>, j: int)
    requires
        p.len() > 0,
        0 <= j < pairs.len(),
        pairs[j].0 == p,
        forall|k: int| 0 <= k < j ==> !text::contains_seq(p, #[trigger] pairs[k].0),
        forall|k: int| j < k < pairs.len() ==> !text::contains_seq(pairs[j].1, #[trigger] pairs[k].0),
    ensures
        apply_pairs(p, pairs) == pairs[j].1,
    decreases pairs.len(),
{
    let init = pairs.drop_last();
    let last = pairs[pairs.len() - 1];
    assert(pairs.last() == last);
    if j == pairs.len() - 1 {
        assert forall|k: int| 0 <= k < init.len() implies !text::contains_seq(
            p,
            #[trigger] init[k].0,
        ) by {
            assert(init[k] == pairs[k]);
        }
        lemma_apply_pairs_unchanged(p, init);
        assert(p.take(p.len() as int) =~= p);
        assert(p.skip(p.len() as int) =~= Seq::<char>::empty());
        assert(text::starts_with_seq(p, p));
        assert(text::replace_all(p.skip(p.len() as int), p, last.1) == p.skip(p.len() as int));
        assert(text::replace_all(p, p, last.1) == last.1 + p.skip(p.len() as int));
        assert(last.1 + p.skip(p.len() as int) =~= last.1);
        assert(apply_pairs(p, pairs) == text::replace_all(apply_pairs(p, init), last.0, last.1));
    } else {
        assert(init[j] == pairs[j]);
        assert forall|k: int| 0 <= k < j implies !text::contains_seq(p, #[trigger] init[k].0) by {
            assert(init[k] == pairs[k]);
        }
        assert forall|k: int| j < k < init.len() implies !text::contains_seq(
            init[j].1,
            #[trigger] init[k].0,
        ) by {
            assert(init[k] == pairs[k]);
        }
        lemma_apply_pairs_pattern(p, init, j);
        assert(!text::contains_seq(pairs[j].1, pairs[pairs.len() - 1].0));
        lemma_replace_all_unchanged(pairs[j].1, last.0, last.1);
    }
}

proof fn lemma_ascii_lacks_letter(s: Seq<char>, p: Seq<char>)
    requires
        ascii_only(s),
        p.len() == 1,
        p[0] >= '\u{80}',
    ensures
        !text::contains_seq(s, p),
{
    if text::contains_seq(s, p) {
        let i = choose|i: int| text::occurs_at(s, p, i);
        assert(s.subrange(i, i + 1)[0] == s[i]);
        assert(s[i] < '\u{80}');
    }
}

/// The transliteration of any one letter of the table is its replacement.
proof fn lemma_uzbek_letter(j: int)
    requires
        7 <= j < uzbek_pairs().len(),
    ensures
        apply_pairs(uzbek_pairs()[j].0, uzbek_pairs()) == uzbek_pairs()[j].1,
{
    let pairs = uzbek_pairs();
    lemma_uzbek_letters_distinct();
    lemma_uzbek_replacements_ascii();
    lemma_uzbek_patterns_nonempty();
    let c = pairs[j].0[0];
    assert(pairs[j].0 =~= seq![c]);
    assert forall|k: int| 0 <= k < j implies !text::contains_seq(seq![c], #[trigger] pairs[k].0) by {
        if k >= 7 {
            assert(pairs[k].0[0] != pairs[j].0[0]);
        }
        if pairs[k].0 == seq![c] {
            assert(pairs[k].0.len() == 1);
            assert(pairs[k].0[0] == c);
        }
        lemma_single_contains(c, pairs[k].0);
    }
    assert forall|k: int| j < k < pairs.len() implies !text::contains_seq(pairs[j].1, #[trigger] pairs[k].0) by {
        assert(ascii_only(pairs[j].1));
        assert(pairs[k].0.len() == 1);
        lemma_ascii_lacks_letter(pairs[j].1, pairs[k].0);
    }
    lemma_apply_pairs_pattern(seq![c], pairs, j);
}

proof fn lemma_uzbek_digraphs_apart()
    ensures
        forall|j: int| 0 <= j < 7 ==> (#[trigger] uzbek_pairs()[j].1).len() <= 2,
        forall|j: int, k: int|
            0 <= j < k < 7 ==> #[trigger] uzbek_pairs()[j].0 != #[trigger] uzbek_pairs()[k].0
                && uzbek_pairs()[j].1 != uzbek_pairs()[k].0,
{
    reveal_strlit("o'");
    reveal_strlit("g'");
    reveal_strlit("sh");
    reveal_strlit("ch");
    reveal_strlit("yo");
    reveal_strlit("yu");
    reveal_strlit("ya");
    reveal_strlit("o");
    reveal_strlit("g");
    reveal_strlit("s");
    reveal_strlit("c");
    reveal_strlit("io");
    reveal_strlit("iu");
    reveal_strlit("ia");
    assert(uzbek_pairs()[0].0[0] != uzbek_pairs()[1].0[0]);
    assert(uzbek_pairs()[0].1.len() != uzbek_pairs()[1].0.len());
    assert(uzbek_pairs()[0].0[0] != uzbek_pairs()[2].0[0]);
    assert(uzbek_pairs()[0].1.len() != uzbek_pairs()[2].0.len());
    assert(uzbek_pairs()[0].0[0] != uzbek_pairs()[3].0[0]);
    assert(uzbek_pairs()[0].1.len() != uzbek_pairs()[3].0.len());
    assert(uzbek_pairs()[0].0[0] != uzbek_pairs()[4].0[0]);
    assert(uzbek_pairs()[0].1.len() != uzbek_pairs()[4].0.len());
    assert(uzbek_pairs()[0].0[0] != uzbek_pairs()[5].0[0]);
    assert(uzbek_pairs()[0].1.len() != uzbek_pairs()[5].0.len());
    assert(uzbek_pairs()[0].0[0] != uzbek_pairs()[6].0[0]);
    assert(uzbek_pairs()[0].1.len() != uzbek_pairs()[6].0.len());
    assert(uzbek_pairs()[1].0[0] != uzbek_pairs()[2].0[0]);
    assert(uzbek_pairs()[1].1.len() != uzbek_pairs()[2].0.len());
    assert(uzbek_pairs()[1].0[0] != uzbek_pairs()[3].0[0]);
    assert(uzbek_pairs()[1].1.len() != uzbek_pairs()[3].0.len());
    assert(uzbek_pairs()[1].0[0] != uzbek_pairs()[4].0[0]);
    assert(uzbek_pairs()[1].1.len() != uzbek_pairs()[4].0.len());
    assert(uzbek_pairs()[1].0[0] != uzbek_pairs()[5].0[0]);
    assert(uzbek_pairs()[1].1.len() != uzbek_pairs()[5].0.len());
    assert(uzbek_pairs()[1].0[0] != uzbek_pairs()[6].0[0]);
    assert(uzbek_pairs()[1].1.len() != uzbek_pairs()[6].0.len());
    assert(uzbek_pairs()[2].0[0] != uzbek_pairs()[3].0[0]);
    assert(uzbek_pairs()[2].1.len() != uzbek_pairs()[3].0.len());
    assert(uzbek_pairs()[2].0[0] != uzbek_pairs()[4].0[0]);
    assert(uzbek_pairs()[2].1.len() != uzbek_pairs()[4].0.len());
    assert(uzbek_pairs()[2].0[0] != uzbek_pairs()[5].0[0]);
    assert(uzbek_pairs()[2].1.len() != uzbek_pairs()[5].0.len());
    assert(uzbek_pairs()[2].0[0] != uzbek_pairs()[6].0[0]);
    assert(uzbek_pairs()[2].1.len() != uzbek_pairs()[6].0.len());
    assert(uzbek_pairs()[3].0[0] != uzbek_pairs()[4].0[0]);
    assert(uzbek_pairs()[3].1.len() != uzbek_pairs()[4].0.len());
    assert(uzbek_pairs()[3].0[0] != uzbek_pairs()[5].0[0]);
    assert(uzbek_pairs()[3].1.len() != uzbek_pairs()[5].0.len());
    assert(uzbek_pairs()[3].0[0] != uzbek_pairs()[6].0[0]);
    assert(uzbek_pairs()[3].1.len() != uzbek_pairs()[6].0.len());
    assert(uzbek_pairs()[4].0[1] != uzbek_pairs()[5].0[1]);
    assert(uzbek_pairs()[4].1[0] != uzbek_pairs()[5].0[0]);
    assert(uzbek_pairs()[4].0[1] != uzbek_pairs()[6].0[1]);
    assert(uzbek_pairs()[4].1[0] != uzbek_pairs()[6].0[0]);
    assert(uzbek_pairs()[5].0[1] != uzbek_pairs()[6].0[1]);
    assert(uzbek_pairs()[5].1[0] != uzbek_pairs()[6].0[0]);
}

proof fn lemma_contains_same_len(s: Seq<char>, p: Seq<char>)
    requires
        p.len() >= s.len(),
        text::contains_seq(s, p),
    ensures
        p == s,
{
    let i = choose|i: int| text::occurs_at(s, p, i);
    assert(s.subrange(i, i + p.len()) =~= s);
}

/// The transliteration of any one Latin digraph of the table is its
/// replacement.
proof fn lemma_uzbek_digraph(j: int)
    requires
        0 <= j < 7,
    ensures
        apply_pairs(uzbek_pairs()[j].0, uzbek_pairs()) == uzbek_pairs()[j].1,
{
    let pairs = uzbek_pairs();
    lemma_uzbek_letters_distinct();
    lemma_uzbek_replacements_ascii();
    lemma_uzbek_patterns_nonempty();
    lemma_uzbek_digraphs_apart();
    let p = pairs[j].0;
    assert forall|k: int| 0 <= k < j implies !text::contains_seq(p, #[trigger] pairs[k].0) by {
        if text::contains_seq(p, pairs[k].0) {
            lemma_contains_same_len(p, pairs[k].0);
        }
    }
    assert forall|k: int| j < k < pairs.len() implies !text::contains_seq(pairs[j].1, #[trigger] pairs[k].0) by {
        if k < 7 {
            if text::contains_seq(pairs[j].1, pairs[k].0) {
                lemma_contains_same_len(pairs[j].1, pairs[k].0);
            }
        } else {
            lemma_ascii_lacks_letter(pairs[j].1, pairs[k].0);
        }
    }
    lemma_apply_pairs_pattern(p, pairs, j);
}

/// Each Latin digraph of the table on its own is rewritten: for every text
/// whose lowercase form is that digraph, the transliteration is exactly the
/// spelling given here.
pub proof fn lemma_latin_digraphs(v: Seq<char>)
    ensures
        text::spec_to_lowercase(v) == "o'"@ ==> transliterated(v) == "o"@,
        text::spec_to_lowercase(v) == "g'"@ ==> transliterated(v) == "g"@,
        text::spec_to_lowercase(v) == "sh"@ ==> transliterated(v) == "s"@,
        text::spec_to_lowercase(v) == "ch"@ ==> transliterated(v) == "c"@,
        text::spec_to_lowercase(v) == "yo"@ ==> transliterated(v) == "io"@,
        text::spec_to_lowercase(v) == "yu"@ ==> transliterated(v) == "iu"@,
        text::spec_to_lowercase(v) == "ya"@ ==> transliterated(v) == "ia"@,
{
    lemma_uzbek_digraph(0);
    lemma_uzbek_digraph(1);
    lemma_uzbek_digraph(2);
    lemma_uzbek_digraph(3);
    lemma_uzbek_digraph(4);
    lemma_uzbek_digraph(5);
    lemma_uzbek_digraph(6);
}

proof fn lemma_replace_letter_concat(x: Seq<char>, y: Seq<char>, c: char, to: Seq<char>)
    ensures
        text::replace_all(x + y, seq![c], to) == text::replace_all(x, seq![c], to)
            + text::replace_all(y, seq![c], to),
    decreases x.len(),
{
    let p: Seq<char> = seq![c];
    if x.len() == 0 {
        assert(x + y =~= y);
        assert(Seq::<char>::empty() + text::replace_all(y, p, to) =~= text::replace_all(y, p, to));
    } else {
        let xy = x + y;
        assert(xy.take(1) =~= x.take(1));
        assert(xy[0] == x[0]);
        if text::starts_with_seq(x, p) {
            assert(xy.skip(1) =~= x.skip(1) + y);
            lemma_replace_letter_concat(x.skip(1), y, c, to);
            assert(to + (text::replace_all(x.skip(1), p, to) + text::replace_all(y, p, to)) =~= (to
                + text::replace_all(x.skip(1), p, to)) + text::replace_all(y, p, to));
        } else {
            assert(xy.drop_first() =~= x.drop_first() + y);
            lemma_replace_letter_concat(x.drop_first(), y, c, to);
            assert(seq![x[0]] + (text::replace_all(x.drop_first(), p, to) + text::replace_all(
                y,
                p,
                to,
            )) =~= (seq![x[0]] + text::replace_all(x.drop_first(), p, to)) + text::replace_all(
                y,
                p,
                to,
            ));
        }
    }
}

proof fn lemma_apply_letters_concat(x: Seq<char>, y: Seq<char>, pairs: Seq<(Seq<char>, Seq<char>)>)
    requires
        forall|k: int| 0 <= k < pairs.len() ==> (#[trigger] pairs[k].0).len() == 1,
    ensures
        apply_pairs(x + y, pairs) == apply_pairs(x, pairs) + apply_pairs(y, pairs),
    decreases pairs.len(),
{
    if pairs.len() > 0 {
        let init = pairs.drop_last();
        assert forall|k: int| 0 <= k < init.len() implies (#[trigger] init[k].0).len() == 1 by {
            assert(init[k] == pairs[k]);
        }
        lemma_apply_letters_concat(x, y, init);
        let last = pairs[pairs.len() - 1];
        assert(pairs.last() == last);
        assert(last.0 =~= seq![last.0[0]]);
        lemma_replace_letter_concat(apply_pairs(x, init), apply_pairs(y, init), last.0[0], last.1);
    }
}

proof fn lemma_apply_pairs_split(s: Seq<char>, a: Seq<(Seq<char>, Seq<char>)>, b: Seq<(Seq<char>, Seq<char>)>)
    ensures
        apply_pairs(s, a + b) == apply_pairs(apply_pairs(s, a), b),
    decreases b.len(),
{
    if b.len() == 0 {
        assert(a + b =~= a);
    } else {
        assert((a + b).drop_last() =~= a + b.drop_last());
        assert((a + b).last() == b.last());
        lemma_apply_pairs_split(s, a, b.drop_last());
    }
}

/// Whether no character of `s` is ASCII.
pub open spec fn no_ascii(s: Seq<char>) -> bool {
    forall|i: int| 0 <= i < s.len() ==> (#[trigger] s[i]) >= '\u{80}'
}

proof fn lemma_no_ascii_plain(s: Seq<char>)
    requires
        no_ascii(s),
    ensures
        apply_pairs(s, uzbek_pairs()) == apply_pairs(s, uzbek_pairs().skip(7)),
{
    let pairs = uzbek_pairs();
    let head = pairs.take(7);
    let tail = pairs.skip(7);
        reveal_strlit("o'");
    reveal_strlit("g'");
    reveal_strlit("sh");
    reveal_strlit("ch");
    reveal_strlit("yo");
    reveal_strlit("yu");
    reveal_strlit("ya");
    assert forall|k: int| 0 <= k < head.len() implies !text::contains_seq(s, #[trigger] head[k].0) by {
        assert(head[k] == pairs[k]);
        assert(pairs[k].0[0] < '\u{80}');
        if text::contains_seq(s, head[k].0) {
            let i = choose|i: int| text::occurs_at(s, head[k].0, i);
            assert(s.subrange(i, i + head[k].0.len())[0] == s[i]);
        }
    }
    lemma_apply_pairs_unchanged(s, head);
    assert(head + tail =~= pairs);
    lemma_apply_pairs_split(s, head, tail);
}

/// Text without ASCII characters (such as Cyrillic text) is transliterated
/// letter by letter: the transliteration of a text whose lowercase form is
/// the concatenation of the lowercase forms of two others is the
/// concatenation of their transliterations.
pub proof fn lemma_transliterated_concat(v: Seq<char>, v1: Seq<char>, v2: Seq<char>)
    requires
        text::spec_to_lowercase(v) == text::spec_to_lowercase(v1) + text::spec_to_lowercase(v2),
        no_ascii(text::spec_to_lowercase(v1)),
        no_ascii(text::spec_to_lowercase(v2)),
    ensures
        transliterated(v) == transliterated(v1) + transliterated(v2),
{
    let x = text::spec_to_lowercase(v1);
    let y = text::spec_to_lowercase(v2);
    assert(no_ascii(x + y)) by {
        assert forall|i: int| 0 <= i < (x + y).len() implies (#[trigger] (x + y)[i]) >= '\u{80}' by {
            if i >= x.len() {
                assert((x + y)[i] == y[i - x.len()]);
            }
        }
    }
    lemma_no_ascii_plain(x);
    lemma_no_ascii_plain(y);
    lemma_no_ascii_plain(x + y);
    lemma_uzbek_letters_distinct();
    let tail = uzbek_pairs().skip(7);
    assert forall|k: int| 0 <= k < tail.len() implies (#[trigger] tail[k].0).len() == 1 by {
        assert(tail[k] == uzbek_pairs()[k + 7]);
    }
    lemma_apply_letters_concat(x, y, tail);
}

/// Each Cyrillic letter on its own becomes its Uzbek Latin spelling: for
/// every text whose lowercase form is that single letter, the
/// transliteration is exactly the Latin letters given here.
pub proof fn lemma_cyrillic_letters(v: Seq<char>)
    ensures
        text::spec_to_lowercase(v) == "ё"@ ==> transliterated(v) == "yo"@,
        text::spec_to_lowercase(v) == "ю"@ ==> transliterated(v) == "yu"@,
        text::spec_to_lowercase(v) == "я"@ ==> transliterated(v) == "ya"@,
        text::spec_to_lowercase(v) == "ш"@ ==> transliterated(v) == "sh"@,
        text::spec_to_lowercase(v) == "ч"@ ==> transliterated(v) == "ch"@,
        text::spec_to_lowercase(v) == "ғ"@ ==> transliterated(v) == "g"@,
        text::spec_to_lowercase(v) == "ў"@ ==> transliterated(v) == "o"@,
        text::spec_to_lowercase(v) == "қ"@ ==> transliterated(v) == "q"@,
        text::spec_to_lowercase(v) == "ҳ"@ ==> transliterated(v) == "h"@,
        text::spec_to_lowercase(v) == "й"@ ==> transliterated(v) == "y"@,
        text::spec_to_lowercase(v) == "ц"@ ==> transliterated(v) == "s"@,
        text::spec_to_lowercase(v) == "ы"@ ==> transliterated(v) == "i"@,
        text::spec_to_lowercase(v) == "э"@ ==> transliterated(v) == "e"@,
        text::spec_to_lowercase(v) == "ъ"@ ==> transliterated(v) == ""@,
        text::spec_to_lowercase(v) == "ь"@ ==> transliterated(v) == ""@,
        text::spec_to_lowercase(v) == "а"@ ==> transliterated(v) == "a"@,
        text::spec_to_lowercase(v) == "б"@ ==> transliterated(v) == "b"@,
        text::spec_to_lowercase(v) == "в"@ ==> transliterated(v) == "v"@,
        text::spec_to_lowercase(v) == "г"@ ==> transliterated(v) == "g"@,
        text::spec_to_lowercase(v) == "д"@ ==> transliterated(v) == "d"@,
        text::spec_to_lowercase(v) == "е"@ ==> transliterated(v) == "e"@,
        text::spec_to_lowercase(v) == "ж"@ ==> transliterated(v) == "j"@,
        text::spec_to_lowercase(v) == "з"@ ==> transliterated(v) == "z"@,
        text::spec_to_lowercase(v) == "и"@ ==> transliterated(v) == "i"@,
        text::spec_to_lowercase(v) == "к"@ ==> transliterated(v) == "k"@,
        text::spec_to_lowercase(v) == "л"@ ==> transliterated(v) == "l"@,
        text::spec_to_lowercase(v) == "м"@ ==> transliterated(v) == "m"@,
        text::spec_to_lowercase(v) == "н"@ ==> transliterated(v) == "n"@,
        text::spec_to_lowercase(v) == "о"@ ==> transliterated(v) == "o"@,
        text::spec_to_lowercase(v) == "п"@ ==> transliterated(v) == "p"@,
        text::spec_to_lowercase(v) == "р"@ ==> transliterated(v) == "r"@,
        text::spec_to_lowercase(v) == "с"@ ==> transliterated(v) == "s"@,
        text::spec_to_lowercase(v) == "т"@ ==> transliterated(v) == "t"@,
        text::spec_to_lowercase(v) == "у"@ ==> transliterated(v) == "u"@,
        text::spec_to_lowercase(v) == "ф"@ ==> transliterated(v) == "f"@,
        text::spec_to_lowercase(v) == "х"@ ==> transliterated(v) == "x"@,
{
    lemma_uzbek_letter(7);
    lemma_uzbek_letter(8);
    lemma_uzbek_letter(9);
    lemma_uzbek_letter(10);
    lemma_uzbek_letter(11);
    lemma_uzbek_letter(12);
    lemma_uzbek_letter(13);
    lemma_uzbek_letter(14);
    lemma_uzbek_letter(15);
    lemma_uzbek_letter(16);
    lemma_uzbek_letter(17);
    lemma_uzbek_letter(18);
    lemma_uzbek_letter(19);
    lemma_uzbek_letter(20);
    lemma_uzbek_letter(21);
    lemma_uzbek_letter(22);
    lemma_uzbek_letter(23);
    lemma_uzbek_letter(24);
    lemma_uzbek_letter(25);
    lemma_uzbek_letter(26);
    lemma_uzbek_letter(27);
    lemma_uzbek_letter(28);
    lemma_uzbek_letter(29);
    lemma_uzbek_letter(30);
    lemma_uzbek_letter(31);
    lemma_uzbek_letter(32);
    lemma_uzbek_letter(33);
    lemma_uzbek_letter(34);
    lemma_uzbek_letter(35);
    lemma_uzbek_letter(36);
    lemma_uzbek_letter(37);
    lemma_uzbek_letter(38);
    lemma_uzbek_letter(39);
    lemma_uzbek_letter(40);
    lemma_uzbek_letter(41);
    lemma_uzbek_letter(42);
}

fn uzbek_table() -> (t: Vec<(&'static str, &'static str)>)
    ensures
        pairs_view(t@) == uzbek_pairs(),
{
    let t = vec![
        ("o'", "o"),
        ("g'", "g"),
        ("sh", "s"),
        ("ch", "c"),
        ("yo", "io"),
        ("yu", "iu"),
        ("ya", "ia"),
        ("ё", "yo"),
        ("ю", "yu"),
        ("я", "ya"),
        ("ш", "sh"),
        ("ч", "ch"),
        ("ғ", "g"),
        ("ў", "o"),
        ("қ", "q"),
        ("ҳ", "h"),
        ("й", "y"),
        ("ц", "s"),
        ("ы", "i"),
        ("э", "e"),
        ("ъ", ""),
        ("ь", ""),
        ("а", "a"),
        ("б", "b"),
        ("в", "v"),
        ("г", "g"),
        ("д", "d"),
        ("е", "e"),
        ("ж", "j"),
        ("з", "z"),
        ("и", "i"),
        ("к", "k"),
        ("л", "l"),
        ("м", "m"),
        ("н", "n"),
        ("о", "o"),
        ("п", "p"),
        ("р", "r"),
        ("с", "s"),
        ("т", "t"),
        ("у", "u"),
        ("ф", "f"),
        ("х", "x")
    ];
    assert(pairs_view(t@) =~= uzbek_pairs());
    t
}

/// Lowercases `value` and rewrites Uzbek Cyrillic letters (and some Latin
/// digraphs) into plain Latin spelling.
pub fn transliterate_uzbek(value: &str) -> (r: String)
    ensures
        r@ == transliterated(value@),
{
    let lower = to_lowercase(value);
    let mut out = chars_of(lower.as_str());
    let table = uzbek_table();
    proof {
        lemma_uzbek_patterns_nonempty();
    }
    let count = table.len();
    let mut k: usize = 0;
    assert(uzbek_pairs().take(0) =~= Seq::<(Seq<char>, Seq<char>)>::empty());
    while k < count
        invariant
            count == table@.len(),
            pairs_view(table@) == uzbek_pairs(),
            k <= count,
            forall|j: int| 0 <= j < uzbek_pairs().len() ==> #[trigger] uzbek_pairs()[j].0.len() > 0,
            out@ == apply_pairs(text::spec_to_lowercase(value@), uzbek_pairs().take(k as int)),
        decreases count - k,
    {
        let (from_str, to_str) = table[k];
        let from = chars_of(from_str);
        let to = chars_of(to_str);
        assert(uzbek_pairs()[k as int] == (from_str@, to_str@));
        assert(uzbek_pairs()[k as int].0.len() > 0);
        assert(uzbek_pairs().take(k + 1).drop_last() =~= uzbek_pairs().take(k as int));
        out = replace_chars(&out, &from, &to);
        k = k + 1;
    }
    assert(uzbek_pairs().take(count as int) =~= uzbek_pairs());
    string_from_chars(&out)
}

} // verus!

verus! {

/// `values` extended by the normal form of `value`, unless that is empty or
/// already present.
pub open spec fn append_unique(values: Seq<Seq<char>>, value: Seq<char>) -> Seq<Seq<char>> {
    let v = normalized(value);
    if v.len() == 0 || values.contains(v) {
        values
    } else {
        values.push(v)
    }
}

/// Whether `values` holds a string equal to `value`.
pub fn contains_string(values: &Vec<String>, value: &String) -> (r: bool)
    ensures
        r == text::strs_of(values@).contains(value@),
{
    let n = values.len();
    let mut k: usize = 0;
    while k < n
        invariant
            n == values@.len(),
            k <= n,
            forall|j: int| 0 <= j < k ==> text::strs_of(values@)[j] != value@,
        decreases n - k,
    {
        if values[k] == *value {
            assert(text::strs_of(values@)[k as int] == value@);
            return true;
        }
        k = k + 1;
    }
    false
}

/// Adds the normal form of `value` to `values` unless it is empty or already there.
pub fn append_unique_search_value(values: &mut Vec<String>, value: &str)
    ensures
        text::strs_of(final(values)@) == append_unique(text::strs_of(old(values)@), value@),
{
    let v = normalized_search_text(value);
    if v.as_str().is_empty() || contains_string(values, &v) {
        return;
    }
    let ghost old_values = values@;
    values.push(v);
    assert(text::strs_of(values@) =~= text::strs_of(old_values).push(normalized(value@)));
}

} // verus!

verus! {

/// `vs` extended by `t` with `from` replaced by `to`, when `t` contains `from`.
pub open spec fn alias_step(vs: Seq<Seq<char>>, t: Seq<char>, from: Seq<char>, to: Seq<char>) -> Seq<
    Seq<char>,
> {
    if text::contains_seq(t, from) {
        append_unique(vs, text::replace_all(t, from, to))
    } else {
        vs
    }
}

/// The spelling variants of one token: the token itself, the `x`/`h` swap of
/// its first letter, and the `lanch`/`lunch`/`launch` respellings.
pub open spec fn token_variants(token: Seq<char>) -> Seq<Seq<char>> {
    let t = normalized(token);
    if t.len() == 0 {
        seq![]
    } else {
        let v1 = if t.len() > 1 && t[0] == 'x' {
            append_unique(seq![t], seq!['h'] + t.drop_first())
        } else {
            seq![t]
        };
        let v2 = if t.len() > 1 && t[0] == 'h' {
            append_unique(v1, seq!['x'] + t.drop_first())
        } else {
            v1
        };
        let v3 = alias_step(v2, t, "lanch"@, "lunch"@);
        let v4 = alias_step(v3, t, "lunch"@, "lanch"@);
        let v5 = alias_step(v4, t, "launch"@, "lanch"@);
        alias_step(v5, t, "launch"@, "lunch"@)
    }
}

fn push_alias(out: &mut Vec<String>, t: &Vec<char>, from: &str, to: &str)
    requires
        from@.len() > 0,
    ensures
        text::strs_of(final(out)@) == alias_step(text::strs_of(old(out)@), t@, from@, to@),
{
    let f = chars_of(from);
    if contains_exec(t, &f) {
        let tt = chars_of(to);
        let replaced = replace_chars(t, &f, &tt);
        let s = string_from_chars(&replaced);
        append_unique_search_value(out, s.as_str());
    }
}

/// The spelling variants of `token` (see `token_variants`).
pub fn token_alias_variants(token: &str) -> (r: Vec<String>)
    ensures
        text::strs_of(r@) == token_variants(token@),
{
    let t = normalize_chars(token);
    if t.len() == 0 {
        let r: Vec<String> = Vec::new();
        assert(text::strs_of(r@) =~= Seq::<Seq<char>>::empty());
        return r;
    }
    let ts = string_from_chars(&t);
    let mut out: Vec<String> = Vec::new();
    out.push(ts);
    assert(text::strs_of(out@) =~= seq![t@]);
    if t.len() > 1 && t[0] == 'x' {
        let mut v: Vec<char> = Vec::new();
        v.push('h');
        let rest = slice_chars(&t, 1, t.len());
        let mut k: usize = 0;
        while k < rest.len()
            invariant
                k <= rest@.len(),
                v@ == seq!['h'] + rest@.take(k as int),
            decreases rest@.len() - k,
        {
            v.push(rest[k]);
            k = k + 1;
            assert(v@ =~= seq!['h'] + rest@.take(k as int));
        }
        assert(rest@.take(rest@.len() as int) =~= t@.drop_first());
        let s = string_from_chars(&v);
        append_unique_search_value(&mut out, s.as_str());
    }
    if t.len() > 1 && t[0] == 'h' {
        let mut v: Vec<char> = Vec::new();
        v.push('x');
        let rest = slice_chars(&t, 1, t.len());
        let mut k: usize = 0;
        while k < rest.len()
            invariant
                k <= rest@.len(),
                v@ == seq!['x'] + rest@.take(k as int),
            decreases rest@.len() - k,
        {
            v.push(rest[k]);
            k = k + 1;
            assert(v@ =~= seq!['x'] + rest@.take(k as int));
        }
        assert(rest@.take(rest@.len() as int) =~= t@.drop_first());
        let s = string_from_chars(&v);
        append_unique_search_value(&mut out, s.as_str());
    }
    proof {
        reveal_strlit("lanch");
        reveal_strlit("lunch");
        reveal_strlit("launch");
    }
    push_alias(&mut out, &t, "lanch", "lunch");
    push_alias(&mut out, &t, "lunch", "lanch");
    push_alias(&mut out, &t, "launch", "lanch");
    push_alias(&mut out, &t, "launch", "lunch");
    out
}

} // verus!

verus! {

/// At most this many phrases are kept while combining token variants.
pub const PHRASE_LIMIT: usize = 16;

/// Adds to `next` the trimmed phrases `phrase + " " + variant`, in the order of
/// `variants`, stopping once `next` reaches the phrase limit.
pub open spec fn combine_one(next: Seq<Seq<char>>, phrase: Seq<char>, variants: Seq<Seq<char>>) -> Seq<
    Seq<char>,
>
    decreases variants.len(),
{
    if variants.len() == 0 {
        next
    } else {
        let combined = text::trim_seq(phrase + seq![' '] + variants[0]);
        if combined.len() == 0 {
            combine_one(next, phrase, variants.drop_first())
        } else {
            let n2 = append_unique(next, combined);
            if n2.len() >= PHRASE_LIMIT {
                n2
            } else {
                combine_one(n2, phrase, variants.drop_first())
            }
        }
    }
}

/// `combine_one` for each phrase in turn, stopping once the limit is reached.
pub open spec fn combine_phrases(
    next: Seq<Seq<char>>,
    phrases: Seq<Seq<char>>,
    variants: Seq<Seq<char>>,
) -> Seq<Seq<char>>
    decreases phrases.len(),
{
    if phrases.len() == 0 {
        next
    } else {
        let n2 = combine_one(next, phrases[0], variants);
        if n2.len() >= PHRASE_LIMIT {
            n2
        } else {
            combine_phrases(n2, phrases.drop_first(), variants)
        }
    }
}

/// Extends every phrase by every variant of each token in turn; stops early
/// when no phrase is left.
pub open spec fn expand_phrases(phrases: Seq<Seq<char>>, tokens: Seq<Seq<char>>) -> Seq<Seq<char>>
    decreases tokens.len(),
{
    if tokens.len() == 0 {
        phrases
    } else {
        let next = combine_phrases(seq![], phrases, token_variants(tokens[0]));
        if next.len() == 0 {
            next
        } else {
            expand_phrases(next, tokens.drop_first())
        }
    }
}

/// Each phrase followed by its compact form, deduplicated.
pub open spec fn finish_phrases(out: Seq<Seq<char>>, phrases: Seq<Seq<char>>) -> Seq<Seq<char>>
    decreases phrases.len(),
{
    if phrases.len() == 0 {
        out
    } else {
        finish_phrases(
            append_unique(append_unique(out, phrases[0]), compacted(phrases[0])),
            phrases.drop_first(),
        )
    }
}

/// The alias variants of a whole phrase: every combination of the variants
/// of its words (limited), each also in compact form.
pub open spec fn alias_variants(value: Seq<char>) -> Seq<Seq<char>> {
    let v = normalized(value);
    let tokens = text::split_ws(v);
    if v.len() == 0 || tokens.len() == 0 {
        seq![]
    } else {
        finish_phrases(seq![], expand_phrases(seq![seq![]], tokens))
    }
}

/// `a + " " + b`, trimmed.
fn joined_trimmed(a: &String, b: &String) -> (r: Vec<char>)
    ensures
        r@ == text::trim_seq(a@ + seq![' '] + b@),
{
    let mut v = chars_of(a.as_str());
    let bv = chars_of(b.as_str());
    let ghost v0 = v@;
    v.push(' ');
    let mut k: usize = 0;
    while k < bv.len()
        invariant
            k <= bv@.len(),
            v@ == v0 + seq![' '] + bv@.take(k as int),
        decreases bv@.len() - k,
    {
        v.push(bv[k]);
        k = k + 1;
        assert(v@ =~= v0 + seq![' '] + bv@.take(k as int));
    }
    assert(bv@.take(bv@.len() as int) =~= bv@);
    trim_chars(&v)
}

fn combine_into(next: &mut Vec<String>, phrase: &String, variants: &Vec<String>)
    ensures
        text::strs_of(final(next)@) == combine_one(
            text::strs_of(old(next)@),
            phrase@,
            text::strs_of(variants@),
        ),
{
    let ghost vs = text::strs_of(variants@);
    let ghost target = combine_one(text::strs_of(next@), phrase@, vs);
    let n = variants.len();
    let mut j: usize = 0;
    let mut full = false;
    assert(vs.skip(0) =~= vs);
    while j < n && !full
        invariant
            n == variants@.len(),
            vs == text::strs_of(variants@),
            j <= n,
            target == if full {
                text::strs_of(next@)
            } else {
                combine_one(text::strs_of(next@), phrase@, vs.skip(j as int))
            },
        decreases n - j,
    {
        assert(vs.skip(j as int)[0] == variants@[j as int]@);
        assert(vs.skip(j as int).drop_first() =~= vs.skip(j + 1));
        let combined = joined_trimmed(phrase, &variants[j]);
        if combined.len() > 0 {
            let s = string_from_chars(&combined);
            append_unique_search_value(next, s.as_str());
            if next.len() >= PHRASE_LIMIT {
                full = true;
            }
        }
        j = j + 1;
    }
    if !full {
        assert(vs.skip(j as int) =~= Seq::<Seq<char>>::empty());
    }
}

fn combine_all(phrases: &Vec<String>, variants: &Vec<String>) -> (r: Vec<String>)
    ensures
        text::strs_of(r@) == combine_phrases(
            seq![],
            text::strs_of(phrases@),
            text::strs_of(variants@),
        ),
{
    let ghost ps = text::strs_of(phrases@);
    let ghost vs = text::strs_of(variants@);
    let mut next: Vec<String> = Vec::new();
    assert(text::strs_of(next@) =~= Seq::<Seq<char>>::empty());
    let ghost target = combine_phrases(text::strs_of(next@), ps, vs);
    let n = phrases.len();
    let mut p: usize = 0;
    let mut full = false;
    assert(ps.skip(0) =~= ps);
    while p < n && !full
        invariant
            n == phrases@.len(),
            ps == text::strs_of(phrases@),
            vs == text::strs_of(variants@),
            p <= n,
            target == if full {
                text::strs_of(next@)
            } else {
                combine_phrases(text::strs_of(next@), ps.skip(p as int), vs)
            },
        decreases n - p,
    {
        assert(ps.skip(p as int)[0] == phrases@[p as int]@);
        assert(ps.skip(p as int).drop_first() =~= ps.skip(p + 1));
        combine_into(&mut next, &phrases[p], variants);
        if next.len() >= PHRASE_LIMIT {
            full = true;
        }
        p = p + 1;
    }
    if !full {
        assert(ps.skip(p as int) =~= Seq::<Seq<char>>::empty());
    }
    next
}

/// Every limited combination of the word variants of `value`, each also in
/// compact form (see `alias_variants`).
pub fn search_alias_variants(value: &str) -> (r: Vec<String>)
    ensures
        text::strs_of(r@) == alias_variants(value@),
{
    let v = normalize_chars(value);
    let tokens = split_whitespace_chars(&v);
    if v.len() == 0 || tokens.len() == 0 {
        let r: Vec<String> = Vec::new();
        assert(text::strs_of(r@) =~= Seq::<Seq<char>>::empty());
        return r;
    }
    let ghost ts = text::seqs_of(tokens@);
    let mut phrases: Vec<String> = Vec::new();
    phrases.push(String::new());
    assert(text::strs_of(phrases@) =~= seq![Seq::<char>::empty()]);
    let ghost target = expand_phrases(text::strs_of(phrases@), ts);
    let n = tokens.len();
    let mut t: usize = 0;
    let mut stopped = false;
    assert(ts.skip(0) =~= ts);
    while t < n && !stopped
        invariant
            n == tokens@.len(),
            ts == text::seqs_of(tokens@),
            t <= n,
            target == if stopped {
                text::strs_of(phrases@)
            } else {
                expand_phrases(text::strs_of(phrases@), ts.skip(t as int))
            },
        decreases n - t,
    {
        assert(ts.skip(t as int)[0] == tokens@[t as int]@);
        assert(ts.skip(t as int).drop_first() =~= ts.skip(t + 1));
        let token = string_from_chars(&tokens[t]);
        let variants = token_alias_variants(token.as_str());
        phrases = combine_all(&phrases, &variants);
        if phrases.len() == 0 {
            stopped = true;
            assert(text::strs_of(phrases@) =~= Seq::<Seq<char>>::empty());
        }
        t = t + 1;
    }
    if !stopped {
        assert(ts.skip(t as int) =~= Seq::<Seq<char>>::empty());
    }
    let ghost ps = text::strs_of(phrases@);
    let mut out: Vec<String> = Vec::new();
    assert(text::strs_of(out@) =~= Seq::<Seq<char>>::empty());
    let m = phrases.len();
    let mut k: usize = 0;
    assert(ps.skip(0) =~= ps);
    while k < m
        invariant
            m == phrases@.len(),
            ps == text::strs_of(phrases@),
            k <= m,
            finish_phrases(seq![], ps) == finish_phrases(text::strs_of(out@), ps.skip(k as int)),
        decreases m - k,
    {
        assert(ps.skip(k as int)[0] == phrases@[k as int]@);
        assert(ps.skip(k as int).drop_first() =~= ps.skip(k + 1));
        append_unique_search_value(&mut out, phrases[k].as_str());
        let c = compact_field(phrases[k].as_str());
        append_unique_search_value(&mut out, c.as_str());
        k = k + 1;
    }
    assert(ps.skip(m as int) =~= Seq::<Seq<char>>::empty());
    out
}

} // verus!

verus! {

/// `queue` extended by the normal forms of `variants`, in order, skipping
/// empty ones and those already in `out`.
pub open spec fn enqueue(queue: Seq<Seq<char>>, variants: Seq<Seq<char>>, out: Seq<Seq<char>>) -> Seq<
    Seq<char>,
>
    decreases variants.len(),
{
    if variants.len() == 0 {
        queue
    } else {
        let v = normalized(variants[0]);
        let q2 = if v.len() == 0 || out.contains(v) {
            queue
        } else {
            queue.push(v)
        };
        enqueue(q2, variants.drop_first(), out)
    }
}

/// Works through `queue` front to back for at most `steps` steps: a value
/// not yet in `out` is added to it and its alias variants are queued.
pub open spec fn drain(queue: Seq<Seq<char>>, out: Seq<Seq<char>>, steps: nat) -> Seq<Seq<char>>
    decreases steps,
{
    if steps == 0 || queue.len() == 0 {
        out
    } else {
        let cur = queue[0];
        if out.contains(cur) {
            drain(queue.drop_first(), out, (steps - 1) as nat)
        } else {
            let out2 = append_unique(out, cur);
            drain(enqueue(queue.drop_first(), alias_variants(cur), out2), out2, (steps - 1) as nat)
        }
    }
}

/// `out` extended by `value` and, transitively, all of its alias variants.
pub open spec fn with_variants(out: Seq<Seq<char>>, value: Seq<char>) -> Seq<Seq<char>> {
    let v = normalized(value);
    if v.len() == 0 {
        out
    } else {
        drain(seq![v], out, usize::MAX as nat)
    }
}

/// Adds `value` and, transitively, all of its alias variants to `out`,
/// breadth first. The work list is processed for at most `usize::MAX` steps.
pub fn add_with_variants(value: &str, out: &mut Vec<String>)
    ensures
        text::strs_of(final(out)@) == with_variants(text::strs_of(old(out)@), value@),
{
    let v = normalized_search_text(value);
    if v.as_str().is_empty() {
        return;
    }
    let ghost target = with_variants(text::strs_of(out@), value@);
    let mut queue: Vec<String> = Vec::new();
    queue.push(v);
    assert(text::strs_of(queue@) =~= seq![normalized(value@)]);
    let mut steps: usize = 0;
    while queue.len() > 0 && steps < usize::MAX
        invariant
            target == drain(
                text::strs_of(queue@),
                text::strs_of(out@),
                (usize::MAX - steps) as nat,
            ),
        decreases usize::MAX - steps,
    {
        let ghost q0 = text::strs_of(queue@);
        let current = queue.remove(0);
        assert(text::strs_of(queue@) =~= q0.drop_first());
        assert(q0[0] == current@);
        steps = steps + 1;
        if contains_string(out, &current) {
            continue;
        }
        append_unique_search_value(out, current.as_str());
        let variants = search_alias_variants(current.as_str());
        let ghost vs = text::strs_of(variants@);
        let ghost out2 = text::strs_of(out@);
        let ghost q1 = text::strs_of(queue@);
        assert(vs.skip(0) =~= vs);
        let n = variants.len();
        let mut k: usize = 0;
        while k < n
            invariant
                n == variants@.len(),
                vs == text::strs_of(variants@),
                out2 == text::strs_of(out@),
                k <= n,
                enqueue(q1, vs, out2) == enqueue(text::strs_of(queue@), vs.skip(k as int), out2),
            decreases n - k,
        {
            assert(vs.skip(k as int)[0] == variants@[k as int]@);
            assert(vs.skip(k as int).drop_first() =~= vs.skip(k + 1));
            let variant = normalized_search_text(variants[k].as_str());
            if !variant.as_str().is_empty() && !contains_string(out, &variant) {
                let ghost qb = text::strs_of(queue@);
                queue.push(variant);
                assert(text::strs_of(queue@) =~= qb.push(normalized(vs[k as int])));
            }
            k = k + 1;
        }
        assert(vs.skip(n as int) =~= Seq::<Seq<char>>::empty());
    }
    proof {
        if queue@.len() == 0 {
            assert(text::strs_of(queue@).len() == 0);
        }
    }
}

/// The search terms of a query: the trimmed query and its transliteration,
/// each with all of its alias variants, without duplicates.
pub open spec fn query_terms(query: Seq<char>) -> Seq<Seq<char>> {
    let q = text::trim_seq(query);
    if q.len() == 0 {
        seq![]
    } else {
        with_variants(with_variants(seq![], q), transliterated(q))
    }
}

/// Expands a user query into the normalised search terms to match against.
pub fn search_terms(query: &str) -> (r: Vec<String>)
    ensures
        text::strs_of(r@) == query_terms(query@),
{
    let q = trimmed(query);
    let mut seen: Vec<String> = Vec::new();
    assert(text::strs_of(seen@) =~= Seq::<Seq<char>>::empty());
    if q.as_str().is_empty() {
        return seen;
    }
    add_with_variants(q.as_str(), &mut seen);
    let t = transliterate_uzbek(q.as_str());
    add_with_variants(t.as_str(), &mut seen);
    seen
}

} // verus!

verus! {

/// Whether the values of `s` are non-empty and pairwise different.
pub open spec fn distinct_nonempty(s: Seq<Seq<char>>) -> bool {
    &&& forall|i: int| 0 <= i < s.len() ==> (#[trigger] s[i]).len() > 0
    &&& forall|i: int, j: int| 0 <= i < j < s.len() ==> #[trigger] s[i] != #[trigger] s[j]
}

proof fn lemma_append_unique_keeps(values: Seq<Seq<char>>, value: Seq<char>)
    requires
        distinct_nonempty(values),
    ensures
        distinct_nonempty(append_unique(values, value)),
        values.len() <= append_unique(values, value).len() <= values.len() + 1,
{
    let v = normalized(value);
    if !(v.len() == 0 || values.contains(v)) {
        let r = values.push(v);
        assert forall|i: int, j: int| 0 <= i < j < r.len() implies #[trigger] r[i] != #[trigger] r[j] by {
            if j == values.len() {
                assert(values.contains(values[i]));
            } else {
                assert(r[i] == values[i] && r[j] == values[j]);
            }
        }
        assert forall|i: int| 0 <= i < r.len() implies (#[trigger] r[i]).len() > 0 by {
            if i < values.len() {
                assert(r[i] == values[i]);
            }
        }
    }
}

proof fn lemma_drain_keeps(queue: Seq<Seq<char>>, out: Seq<Seq<char>>, steps: nat)
    requires
        distinct_nonempty(out),
    ensures
        distinct_nonempty(drain(queue, out, steps)),
    decreases steps,
{
    if steps > 0 && queue.len() > 0 {
        let cur = queue[0];
        if out.contains(cur) {
            lemma_drain_keeps(queue.drop_first(), out, (steps - 1) as nat);
        } else {
            let out2 = append_unique(out, cur);
            lemma_append_unique_keeps(out, cur);
            lemma_drain_keeps(
                enqueue(queue.drop_first(), alias_variants(cur), out2),
                out2,
                (steps - 1) as nat,
            );
        }
    }
}

/// The terms that `search_terms` produces are non-empty and free of
/// duplicates, whatever the query.
pub proof fn lemma_query_terms_distinct(query: Seq<char>)
    ensures
        distinct_nonempty(query_terms(query)),
{
    let q = text::trim_seq(query);
    if q.len() > 0 {
        let e: Seq<Seq<char>> = seq![];
        let first = with_variants(e, q);
        if normalized(q).len() > 0 {
            lemma_drain_keeps(seq![normalized(q)], e, usize::MAX as nat);
        }
        let t = transliterated(q);
        if normalized(t).len() > 0 {
            lemma_drain_keeps(seq![normalized(t)], first, usize::MAX as nat);
        }
    }
}

proof fn lemma_combine_one_len(next: Seq<Seq<char>>, phrase: Seq<char>, variants: Seq<Seq<char>>)
    requires
        next.len() < PHRASE_LIMIT,
    ensures
        combine_one(next, phrase, variants).len() <= PHRASE_LIMIT,
    decreases variants.len(),
{
    if variants.len() > 0 {
        let combined = text::trim_seq(phrase + seq![' '] + variants[0]);
        if combined.len() == 0 {
            lemma_combine_one_len(next, phrase, variants.drop_first());
        } else {
            let n2 = append_unique(next, combined);
            if n2.len() < PHRASE_LIMIT {
                lemma_combine_one_len(n2, phrase, variants.drop_first());
            }
        }
    }
}

proof fn lemma_combine_phrases_len(
    next: Seq<Seq<char>>,
    phrases: Seq<Seq<char>>,
    variants: Seq<Seq<char>>,
)
    requires
        next.len() < PHRASE_LIMIT,
    ensures
        combine_phrases(next, phrases, variants).len() <= PHRASE_LIMIT,
    decreases phrases.len(),
{
    if phrases.len() > 0 {
        lemma_combine_one_len(next, phrases[0], variants);
        let n2 = combine_one(next, phrases[0], variants);
        if n2.len() < PHRASE_LIMIT {
            lemma_combine_phrases_len(n2, phrases.drop_first(), variants);
        }
    }
}

proof fn lemma_expand_phrases_len(phrases: Seq<Seq<char>>, tokens: Seq<Seq<char>>)
    requires
        phrases.len() <= PHRASE_LIMIT,
    ensures
        expand_phrases(phrases, tokens).len() <= PHRASE_LIMIT,
    decreases tokens.len(),
{
    if tokens.len() > 0 {
        let e: Seq<Seq<char>> = seq![];
        lemma_combine_phrases_len(e, phrases, token_variants(tokens[0]));
        let next = combine_phrases(e, phrases, token_variants(tokens[0]));
        if next.len() > 0 {
            lemma_expand_phrases_len(next, tokens.drop_first());
        }
    }
}

proof fn lemma_finish_phrases_len(out: Seq<Seq<char>>, phrases: Seq<Seq<char>>)
    ensures
        finish_phrases(out, phrases).len() <= out.len() + 2 * phrases.len(),
    decreases phrases.len(),
{
    if phrases.len() > 0 {
        let o1 = append_unique(out, phrases[0]);
        let o2 = append_unique(o1, compacted(phrases[0]));
        lemma_finish_phrases_len(o2, phrases.drop_first());
    }
}

proof fn lemma_append_unique_prefix(values: Seq<Seq<char>>, value: Seq<char>)
    ensures
        values.is_prefix_of(append_unique(values, value)),
        normalized(value).len() > 0 ==> append_unique(values, value).contains(normalized(value)),
{
    let r = append_unique(values, value);
    let v = normalized(value);
    if !(v.len() == 0 || values.contains(v)) {
        assert(r[values.len() as int] == v);
    }
}

proof fn lemma_alias_step_keeps(vs: Seq<Seq<char>>, t: Seq<char>, from: Seq<char>, to: Seq<char>)
    requires
        distinct_nonempty(vs),
    ensures
        distinct_nonempty(alias_step(vs, t, from, to)),
        vs.is_prefix_of(alias_step(vs, t, from, to)),
        alias_step(vs, t, from, to).len() <= vs.len() + 1,
{
    if text::contains_seq(t, from) {
        lemma_append_unique_keeps(vs, text::replace_all(t, from, to));
        lemma_append_unique_prefix(vs, text::replace_all(t, from, to));
    }
}

/// The variants of a token: none exactly when its normal form is empty;
/// otherwise the normal form comes first, and there are at most six of
/// them, all non-empty and pairwise different.
pub proof fn lemma_token_variants_shape(token: Seq<char>)
    ensures
        token_variants(token).len() == 0 <==> normalized(token).len() == 0,
        normalized(token).len() > 0 ==> token_variants(token)[0] == normalized(token),
        token_variants(token).len() <= 6,
        distinct_nonempty(token_variants(token)),
{
    let t = normalized(token);
    if t.len() > 0 {
        let v0: Seq<Seq<char>> = seq![t];
        assert(distinct_nonempty(v0));
        let v1 = if t.len() > 1 && t[0] == 'x' {
            append_unique(v0, seq!['h'] + t.drop_first())
        } else {
            v0
        };
        lemma_append_unique_keeps(v0, seq!['h'] + t.drop_first());
        lemma_append_unique_prefix(v0, seq!['h'] + t.drop_first());
        let v2 = if t.len() > 1 && t[0] == 'h' {
            append_unique(v1, seq!['x'] + t.drop_first())
        } else {
            v1
        };
        lemma_append_unique_keeps(v1, seq!['x'] + t.drop_first());
        lemma_append_unique_prefix(v1, seq!['x'] + t.drop_first());
        let v3 = alias_step(v2, t, "lanch"@, "lunch"@);
        lemma_alias_step_keeps(v2, t, "lanch"@, "lunch"@);
        let v4 = alias_step(v3, t, "lunch"@, "lanch"@);
        lemma_alias_step_keeps(v3, t, "lunch"@, "lanch"@);
        let v5 = alias_step(v4, t, "launch"@, "lanch"@);
        lemma_alias_step_keeps(v4, t, "launch"@, "lanch"@);
        lemma_alias_step_keeps(v5, t, "launch"@, "lunch"@);
        assert(v1[0] == t);
        assert(v2[0] == t);
        assert(v3[0] == t);
        assert(v4[0] == t);
        assert(v5[0] == t);
    }
}

proof fn lemma_finish_phrases_keeps(out: Seq<Seq<char>>, phrases: Seq<Seq<char>>)
    requires
        distinct_nonempty(out),
    ensures
        distinct_nonempty(finish_phrases(out, phrases)),
        out.is_prefix_of(finish_phrases(out, phrases)),
    decreases phrases.len(),
{
    if phrases.len() > 0 {
        let o1 = append_unique(out, phrases[0]);
        let o2 = append_unique(o1, compacted(phrases[0]));
        lemma_append_unique_keeps(out, phrases[0]);
        lemma_append_unique_prefix(out, phrases[0]);
        lemma_append_unique_keeps(o1, compacted(phrases[0]));
        lemma_append_unique_prefix(o1, compacted(phrases[0]));
        lemma_finish_phrases_keeps(o2, phrases.drop_first());
    }
}

/// The alias variants of a phrase are non-empty, pairwise different, and
/// at most twice the phrase limit in number.
pub proof fn lemma_alias_variants_shape(value: Seq<char>)
    ensures
        distinct_nonempty(alias_variants(value)),
        alias_variants(value).len() <= 2 * PHRASE_LIMIT,
        normalized(value).len() == 0 ==> alias_variants(value).len() == 0,
{
    lemma_alias_variants_bounded(value);
    let v = normalized(value);
    let tokens = text::split_ws(v);
    if v.len() > 0 && tokens.len() > 0 {
        let e: Seq<Seq<char>> = seq![];
        lemma_finish_phrases_keeps(e, expand_phrases(seq![seq![]], tokens));
    }
}

proof fn lemma_drain_prefix(queue: Seq<Seq<char>>, out: Seq<Seq<char>>, steps: nat)
    ensures
        out.is_prefix_of(drain(queue, out, steps)),
    decreases steps,
{
    if steps > 0 && queue.len() > 0 {
        let cur = queue[0];
        if out.contains(cur) {
            lemma_drain_prefix(queue.drop_first(), out, (steps - 1) as nat);
        } else {
            let out2 = append_unique(out, cur);
            lemma_append_unique_prefix(out, cur);
            lemma_drain_prefix(
                enqueue(queue.drop_first(), alias_variants(cur), out2),
                out2,
                (steps - 1) as nat,
            );
        }
    }
}

/// What `add_with_variants` does to its list: it only appends; it appends
/// nothing for a value whose normal form is empty; a list of non-empty,
/// pairwise different values stays so. Each value taken from the work list
/// is added in normal form, so afterwards the list holds the normal form of
/// `value`, or that normal form normalised once more, whenever the latter is
/// not empty; where normalising the normal form changes nothing, the list
/// holds the normal form of `value` itself.
pub proof fn lemma_with_variants(out: Seq<Seq<char>>, value: Seq<char>)
    ensures
        out.is_prefix_of(with_variants(out, value)),
        normalized(value).len() == 0 ==> with_variants(out, value) == out,
        normalized(value).len() > 0 && normalized(normalized(value)).len() > 0
            ==> with_variants(out, value).contains(
            normalized(value),
        ) || with_variants(out, value).contains(normalized(normalized(value))),
        normalized(normalized(value)) == normalized(value) && normalized(value).len() > 0
            ==> with_variants(out, value).contains(normalized(value)),
        distinct_nonempty(out) ==> distinct_nonempty(with_variants(out, value)),
{
    let v = normalized(value);
    if v.len() > 0 {
        let q: Seq<Seq<char>> = seq![v];
        lemma_drain_prefix(q, out, usize::MAX as nat);
        if distinct_nonempty(out) {
            lemma_drain_keeps(q, out, usize::MAX as nat);
        }
        let r = with_variants(out, value);
        if out.contains(v) {
            let i = choose|i: int| 0 <= i < out.len() && out[i] == v;
            assert(r[i] == v);
        } else {
            let out2 = append_unique(out, v);
            lemma_append_unique_prefix(out, v);
            lemma_drain_prefix(
                enqueue(q.drop_first(), alias_variants(v), out2),
                out2,
                (usize::MAX - 1) as nat,
            );
            if normalized(v).len() > 0 {
                let j = choose|j: int| 0 <= j < out2.len() && out2[j] == normalized(v);
                assert(r[j] == normalized(v));
            }
        }
    }
}

/// The search terms of a query: none for a blank query, nor when the normal
/// forms of the trimmed query `q` and of its transliteration are both empty.
/// The first term is the normal form of `q` normalised once more, when that
/// is not empty (the normal form of `q` itself where normalising it again
/// changes nothing). The normal form `m` of the transliteration of `q` is
/// among the terms, or `m` normalised once more is, when the latter is not
/// empty.
pub proof fn lemma_query_terms_shape(query: Seq<char>)
    ensures
        text::trim_seq(query).len() == 0 ==> query_terms(query).len() == 0,
        ({
            let q = text::trim_seq(query);
            let n = normalized(q);
            let m = normalized(transliterated(q));
            q.len() > 0 ==> {
                &&& n.len() == 0 && m.len() == 0 ==> query_terms(query).len() == 0
                &&& n.len() > 0 && normalized(n).len() > 0 ==> query_terms(query)[0] == normalized(
                    n,
                )
                &&& m.len() > 0 && normalized(m).len() > 0 ==> query_terms(query).contains(m)
                    || query_terms(query).contains(normalized(m))
            }
        }),
{
    let q = text::trim_seq(query);
    if q.len() > 0 {
        let e: Seq<Seq<char>> = seq![];
        let first = with_variants(e, q);
        lemma_with_variants(e, q);
        lemma_with_variants(first, transliterated(q));
        let n = normalized(q);
        if n.len() > 0 && normalized(n).len() > 0 {
            let out2 = append_unique(e, n);
            assert(out2 =~= seq![normalized(n)]);
            let q2 = enqueue(seq![n].drop_first(), alias_variants(n), out2);
            assert(first == drain(q2, out2, (usize::MAX - 1) as nat));
            lemma_drain_prefix(q2, out2, (usize::MAX - 1) as nat);
            assert(first[0] == normalized(n));
        }
    }
}

/// A phrase never has more than twice the phrase limit of alias variants.
pub proof fn lemma_alias_variants_bounded(value: Seq<char>)
    ensures
        alias_variants(value).len() <= 2 * PHRASE_LIMIT,
{
    let v = normalized(value);
    let tokens = text::split_ws(v);
    if v.len() > 0 && tokens.len() > 0 {
        let start: Seq<Seq<char>> = seq![seq![]];
        lemma_expand_phrases_len(start, tokens);
        lemma_finish_phrases_len(seq![], expand_phrases(start, tokens));
    }
}

} // verus!
