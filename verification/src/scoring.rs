//! Fuzzy matching of catalog fields against search terms, and ranking.
use vstd::prelude::*;
use crate::text::{
    self, chars_equal, chars_of, contains_exec, split_whitespace_chars, starts_with_exec,
    string_from_chars,
};
use crate::search::{compact_field, first_token, normalized_search_text, transliterate_uzbek};
use crate::store::Item;

verus! {

/// The smallest of three numbers.
pub open spec fn min3(a: nat, b: nat, c: nat) -> nat {
    if a <= b && a <= c {
        a
    } else if b <= c {
        b
    } else {
        c
    }
}

/// The Levenshtein distance: the fewest single-character insertions,
/// deletions and substitutions that turn `a` into `b`.
pub open spec fn edit_distance(a: Seq<char>, b: Seq<char>) -> nat
    decreases a.len() + b.len(),
{
    if a.len() == 0 {
        b.len()
    } else if b.len() == 0 {
        a.len()
    } else {
        min3(
            edit_distance(a.drop_last(), b) + 1,
            edit_distance(a, b.drop_last()) + 1,
            edit_distance(a.drop_last(), b.drop_last()) + if a.last() == b.last() {
                0nat
            } else {
                1nat
            },
        )
    }
}

/// The distance from a sequence to itself is zero.
pub proof fn lemma_edit_distance_self(a: Seq<char>)
    ensures
        edit_distance(a, a) == 0,
    decreases a.len(),
{
    if a.len() > 0 {
        lemma_edit_distance_self(a.drop_last());
    }
}

/// The distance never exceeds the two lengths together.
pub proof fn lemma_edit_distance_bound(a: Seq<char>, b: Seq<char>)
    ensures
        edit_distance(a, b) <= a.len() + b.len(),
    decreases a.len() + b.len(),
{
    if a.len() > 0 && b.len() > 0 {
        lemma_edit_distance_bound(a.drop_last(), b);
    }
}

/// The edit distance of two character vectors, by the row-by-row table.
fn edit_distance_chars(left: &Vec<char>, right: &Vec<char>) -> (r: usize)
    requires
        left@.len() <= isize::MAX,
        right@.len() <= isize::MAX,
    ensures
        r == edit_distance(left@, right@),
{
    if chars_equal(left, right) {
        proof {
            lemma_edit_distance_self(left@);
        }
        return 0;
    }
    let n = left.len();
    let m = right.len();
    if n == 0 {
        return m;
    }
    if m == 0 {
        return n;
    }
    let mut prev: Vec<usize> = Vec::new();
    let mut j: usize = 0;
    while j <= m
        invariant
            m == right@.len(),
            m <= isize::MAX,
            j <= m + 1,
            prev@.len() == j,
            forall|k: int|
                0 <= k < j ==> #[trigger] prev@[k] == edit_distance(
                    left@.take(0),
                    right@.take(k),
                ),
        decreases m + 1 - j,
    {
        assert(left@.take(0).len() == 0);
        prev.push(j);
        j = j + 1;
    }
    let mut i: usize = 1;
    while i <= n
        invariant
            n == left@.len(),
            m == right@.len(),
            n <= isize::MAX,
            m <= isize::MAX,
            1 <= i <= n + 1,
            prev@.len() == m + 1,
            forall|k: int|
                0 <= k <= m ==> #[trigger] prev@[k] == edit_distance(
                    left@.take(i - 1),
                    right@.take(k),
                ),
        decreases n + 1 - i,
    {
        let ghost a = left@.take(i as int);
        assert(a.drop_last() =~= left@.take(i - 1));
        let mut cur: Vec<usize> = Vec::new();
        assert(right@.take(0).len() == 0);
        cur.push(i);
        let mut j: usize = 1;
        while j <= m
            invariant
                n == left@.len(),
                m == right@.len(),
                n <= isize::MAX,
                m <= isize::MAX,
                1 <= i <= n,
                1 <= j <= m + 1,
                a == left@.take(i as int),
                a.drop_last() == left@.take(i - 1),
                prev@.len() == m + 1,
                forall|k: int|
                    0 <= k <= m ==> #[trigger] prev@[k] == edit_distance(
                        left@.take(i - 1),
                        right@.take(k),
                    ),
                cur@.len() == j,
                forall|k: int| 0 <= k < j ==> #[trigger] cur@[k] == edit_distance(a, right@.take(k)),
            decreases m + 1 - j,
        {
            let ghost b = right@.take(j as int);
            assert(b.drop_last() =~= right@.take(j - 1));
            proof {
                lemma_edit_distance_bound(left@.take(i - 1), b);
                lemma_edit_distance_bound(a, b.drop_last());
                lemma_edit_distance_bound(left@.take(i - 1), b.drop_last());
            }
            let cost: usize = if left[i - 1] != right[j - 1] {
                1
            } else {
                0
            };
            let del = prev[j] + 1;
            let ins = cur[j - 1] + 1;
            let sub = prev[j - 1] + cost;
            let best = if del <= ins && del <= sub {
                del
            } else if ins <= sub {
                ins
            } else {
                sub
            };
            assert(a.last() == left@[i - 1]);
            assert(b.last() == right@[j - 1]);
            cur.push(best);
            j = j + 1;
        }
        prev = cur;
        i = i + 1;
    }
    assert(left@.take(n as int) =~= left@);
    assert(right@.take(m as int) =~= right@);
    prev[m]
}

/// The Levenshtein distance between `left` and `right`, counted in characters.
pub fn levenshtein_distance(left: &str, right: &str) -> (r: usize)
    ensures
        r == edit_distance(left@, right@),
{
    let l = chars_of(left);
    let r = chars_of(right);
    edit_distance_chars(&l, &r)
}

} // verus!

verus! {

/// How many leading characters of `t` a left-to-right greedy scan of `f`
/// matches in order.
pub open spec fn greedy_matched(f: Seq<char>, t: Seq<char>) -> nat
    decreases f.len(),
{
    if f.len() == 0 {
        0
    } else {
        let k = greedy_matched(f.drop_last(), t);
        if k < t.len() && f.last() == t[k as int] {
            k + 1
        } else {
            k
        }
    }
}

/// Whether `term`, at least three characters long, occurs in `field` as a
/// (not necessarily contiguous) subsequence.
pub open spec fn subsequence_spec(field: Seq<char>, term: Seq<char>) -> bool {
    term.len() >= 3 && greedy_matched(field, term) == term.len()
}

/// The greedy count never exceeds the length of `t`.
pub proof fn lemma_greedy_bounded(f: Seq<char>, t: Seq<char>)
    ensures
        greedy_matched(f, t) <= t.len(),
    decreases f.len(),
{
    if f.len() > 0 {
        lemma_greedy_bounded(f.drop_last(), t);
    }
}

/// Once every character of `t` is matched on a prefix of `f`, it stays so on `f`.
pub proof fn lemma_greedy_saturates(f: Seq<char>, t: Seq<char>, i: int)
    requires
        0 <= i <= f.len(),
        greedy_matched(f.take(i), t) == t.len(),
    ensures
        greedy_matched(f, t) == t.len(),
    decreases f.len() - i,
{
    if i < f.len() {
        assert(f.take(i + 1).drop_last() =~= f.take(i));
        lemma_greedy_saturates(f, t, i + 1);
    } else {
        assert(f.take(i) =~= f);
    }
}

/// Whether `term` (of at least three characters) is a subsequence of `field`.
pub fn subsequence_match(field: &str, term: &str) -> (r: bool)
    ensures
        r == subsequence_spec(field@, term@),
        r == (term@.len() >= 3 && is_subsequence(term@, field@)),
{
    proof {
        lemma_greedy_matches_iff_subsequence(field@, term@);
    }
    let target = chars_of(term);
    if target.len() < 3 {
        return false;
    }
    let f = chars_of(field);
    let n = f.len();
    let mut idx: usize = 0;
    let mut i: usize = 0;
    while i < n
        invariant
            n == f@.len(),
            i <= n,
            target@ == term@,
            f@ == field@,
            (greedy_matched(field@, term@) == term@.len()) <==> is_subsequence(term@, field@),
            target@.len() >= 3,
            idx == greedy_matched(f@.take(i as int), target@),
            idx < target@.len(),
        decreases n - i,
    {
        assert(f@.take(i + 1).drop_last() =~= f@.take(i as int));
        assert(f@.take(i + 1).last() == f@[i as int]);
        if idx < target.len() && f[i] == target[idx] {
            idx = idx + 1;
            if idx == target.len() {
                proof {
                    lemma_greedy_saturates(f@, target@, i + 1);
                }
                return true;
            }
        }
        i = i + 1;
    }
    assert(f@.take(n as int) =~= f@);
    false
}

} // verus!

verus! {

/// The larger of two numbers.
pub open spec fn max_int(a: int, b: int) -> int {
    if a >= b {
        a
    } else {
        b
    }
}

/// The best typo score over `tokens` (each compacted), starting from `best`;
/// an exact token match ends the scan with 110.
pub open spec fn typo_fold(best: int, tokens: Seq<Seq<char>>, term: Seq<char>) -> int
    decreases tokens.len(),
{
    if tokens.len() == 0 {
        best
    } else {
        let token = crate::search::compacted(tokens[0]);
        let rest = tokens.drop_first();
        if token.len() == 0 {
            typo_fold(best, rest, term)
        } else if token == term {
            110
        } else if text::starts_with_seq(token, term) {
            typo_fold(max_int(best, 97), rest, term)
        } else if text::contains_seq(token, term) {
            typo_fold(max_int(best, 74), rest, term)
        } else if edit_distance(token, term) <= 1 {
            typo_fold(max_int(best, 68), rest, term)
        } else if term.len() >= 4 && token.len() >= 4 && subsequence_spec(token, term) {
            typo_fold(max_int(best, 58), rest, term)
        } else {
            typo_fold(best, rest, term)
        }
    }
}

/// How well `term` matches some word of `field` allowing for typos:
/// 110 for an equal word, 97 for a word it begins, 74 for a word containing
/// it, 68 for a word one edit away, 58 for a word holding it as a
/// subsequence (both at least four characters), 0 otherwise.
pub open spec fn typo_score(field: Seq<char>, term: Seq<char>) -> int {
    if term.len() == 0 {
        0
    } else {
        typo_fold(0, text::split_ws(field), term)
    }
}

/// Scores stay between 0 and 110.
pub proof fn lemma_typo_fold_range(best: int, tokens: Seq<Seq<char>>, term: Seq<char>)
    requires
        0 <= best <= 110,
    ensures
        0 <= typo_fold(best, tokens, term) <= 110,
    decreases tokens.len(),
{
    if tokens.len() > 0 {
        let rest = tokens.drop_first();
        lemma_typo_fold_range(best, rest, term);
        lemma_typo_fold_range(max_int(best, 97), rest, term);
        lemma_typo_fold_range(max_int(best, 74), rest, term);
        lemma_typo_fold_range(max_int(best, 68), rest, term);
        lemma_typo_fold_range(max_int(best, 58), rest, term);
    }
}

/// The typo-tolerant word score of `term` against `field` (see `typo_score`).
pub fn token_typo_score(field: &str, term: &str) -> (r: i32)
    ensures
        r == typo_score(field@, term@),
        0 <= r <= 110,
{
    let termv = chars_of(term);
    if termv.len() == 0 {
        return 0;
    }
    let fv = chars_of(field);
    let words = split_whitespace_chars(&fv);
    let ghost ws = text::seqs_of(words@);
    let ghost target = typo_fold(0, ws, term@);
    proof {
        lemma_typo_fold_range(0, ws, term@);
    }
    let n = words.len();
    let mut best: i32 = 0;
    let mut found = false;
    let mut k: usize = 0;
    assert(ws.skip(0) =~= ws);
    while k < n && !found
        invariant
            n == words@.len(),
            ws == text::seqs_of(words@),
            termv@ == term@,
            termv@.len() <= isize::MAX,
            k <= n,
            0 <= best <= 110,
            target == if found {
                best as int
            } else {
                typo_fold(best as int, ws.skip(k as int), term@)
            },
        decreases n - k,
    {
        assert(ws.skip(k as int)[0] == words@[k as int]@);
        assert(ws.skip(k as int).drop_first() =~= ws.skip(k + 1));
        let word = string_from_chars(&words[k]);
        let token = compact_field(word.as_str());
        let tv = chars_of(token.as_str());
        if tv.len() == 0 {
        } else if chars_equal(&tv, &termv) {
            best = 110;
            found = true;
        } else if starts_with_exec(&tv, &termv) {
            if best < 97 {
                best = 97;
            }
        } else if contains_exec(&tv, &termv) {
            if best < 74 {
                best = 74;
            }
        } else if edit_distance_chars(&tv, &termv) <= 1 {
            if best < 68 {
                best = 68;
            }
        } else if termv.len() >= 4 && tv.len() >= 4 && subsequence_match(token.as_str(), term) {
            if best < 58 {
                best = 58;
            }
        }
        k = k + 1;
    }
    if !found {
        assert(ws.skip(k as int) =~= Seq::<Seq<char>>::empty());
    }
    best
}

} // verus!

verus! {

/// How well search term `t` matches catalog field `f`, both first put in
/// normal form: 120 equal, 100 prefix, 99 equal without spaces, 98 prefix
/// without spaces, 90 word prefix; then, for terms longer than three
/// characters once compacted: 75 substring, 72 substring without spaces,
/// the typo score, 55 subsequence, 45/44 one edit away (with and without
/// spaces), 40/39 one edit away from the first word; otherwise 0.
pub open spec fn fuzzy_score(f: Seq<char>, t: Seq<char>) -> int {
    let field = crate::search::normalized(f);
    let term = crate::search::normalized(t);
    if field.len() == 0 || term.len() == 0 {
        0
    } else {
        let fc = crate::search::compacted(field);
        let tc = crate::search::compacted(term);
        let long = tc.len() > 3;
        if field == term {
            120
        } else if text::starts_with_seq(field, term) {
            100
        } else if fc == tc {
            99
        } else if text::starts_with_seq(fc, tc) {
            98
        } else if text::contains_seq(field, seq![' '] + term) {
            90
        } else if long && text::contains_seq(field, term) {
            75
        } else if long && text::contains_seq(fc, tc) {
            72
        } else if long && typo_score(field, term) > 0 {
            typo_score(field, term)
        } else if long && subsequence_spec(fc, tc) {
            55
        } else if long && edit_distance(field, term) <= 1 {
            45
        } else if long && edit_distance(fc, tc) <= 1 {
            44
        } else if long && edit_distance(text::first_word(field), term) <= 1 {
            40
        } else if long && edit_distance(text::first_word(fc), tc) <= 1 {
            39
        } else {
            0
        }
    }
}

/// The fuzzy score of `term` against `field` (see `fuzzy_score`).
pub fn fuzzy_field_score(field: &str, term: &str) -> (r: i32)
    ensures
        r == fuzzy_score(field@, term@),
        0 <= r <= 120,
{
    let field_s = normalized_search_text(field);
    let term_s = normalized_search_text(term);
    let fv = chars_of(field_s.as_str());
    let tv = chars_of(term_s.as_str());
    if fv.len() == 0 || tv.len() == 0 {
        return 0;
    }
    let fc_s = compact_field(field_s.as_str());
    let tc_s = compact_field(term_s.as_str());
    let fc = chars_of(fc_s.as_str());
    let tc = chars_of(tc_s.as_str());
    let long = tc.len() > 3;
    if chars_equal(&fv, &tv) {
        return 120;
    }
    if starts_with_exec(&fv, &tv) {
        return 100;
    }
    if chars_equal(&fc, &tc) {
        return 99;
    }
    if starts_with_exec(&fc, &tc) {
        return 98;
    }
    let mut spaced: Vec<char> = Vec::new();
    spaced.push(' ');
    let mut k: usize = 0;
    while k < tv.len()
        invariant
            k <= tv@.len(),
            spaced@ == seq![' '] + tv@.take(k as int),
        decreases tv@.len() - k,
    {
        spaced.push(tv[k]);
        k = k + 1;
        assert(spaced@ =~= seq![' '] + tv@.take(k as int));
    }
    assert(tv@.take(tv@.len() as int) =~= tv@);
    if contains_exec(&fv, &spaced) {
        return 90;
    }
    if !long {
        return 0;
    }
    if contains_exec(&fv, &tv) {
        return 75;
    }
    if contains_exec(&fc, &tc) {
        return 72;
    }
    let typo = token_typo_score(field_s.as_str(), term_s.as_str());
    if typo > 0 {
        return typo;
    }
    if subsequence_match(fc_s.as_str(), tc_s.as_str()) {
        return 55;
    }
    if edit_distance_chars(&fv, &tv) <= 1 {
        return 45;
    }
    if edit_distance_chars(&fc, &tc) <= 1 {
        return 44;
    }
    let ff = chars_of(first_token(field_s.as_str()));
    if edit_distance_chars(&ff, &tv) <= 1 {
        return 40;
    }
    let fcf = chars_of(first_token(fc_s.as_str()));
    if edit_distance_chars(&fcf, &tc) <= 1 {
        return 39;
    }
    0
}

} // verus!

verus! {

/// The most search terms an item can be scored against: each term adds at
/// most 120 to a score held in an `i32`.
pub const MAX_SCORED_TERMS: usize = 17_895_697;

/// The six normalised texts an item is matched on: code, item name and name,
/// then the transliterations of the same three.
pub open spec fn item_fields(item: Item) -> Seq<Seq<char>> {
    seq![
        crate::search::normalized(item.item_code@),
        crate::search::normalized(item.item_name@),
        crate::search::normalized(item.name@),
        crate::search::normalized(crate::search::transliterated(item.item_code@)),
        crate::search::normalized(crate::search::transliterated(item.item_name@)),
        crate::search::normalized(crate::search::transliterated(item.name@)),
    ]
}

/// The best fuzzy score of `term` over `fields` (0 when there is none).
pub open spec fn best_score(fields: Seq<Seq<char>>, term: Seq<char>) -> int
    decreases fields.len(),
{
    if fields.len() == 0 {
        0
    } else {
        max_int(best_score(fields.drop_last(), term), fuzzy_score(fields.last(), term))
    }
}

/// The sum over `terms` of each term's best score over `fields`.
pub open spec fn terms_total(fields: Seq<Seq<char>>, terms: Seq<Seq<char>>) -> int
    decreases terms.len(),
{
    if terms.len() == 0 {
        0
    } else {
        terms_total(fields, terms.drop_last()) + best_score(fields, terms.last())
    }
}

/// How well `item` matches `terms`: for each term the best score over the
/// item's fields, summed.
pub open spec fn item_score(item: Item, terms: Seq<Seq<char>>) -> int {
    terms_total(item_fields(item), terms)
}

/// The match score of `item` against `terms` (see `item_score`).
pub fn score_item_match(item: &Item, terms: &[String]) -> (r: i32)
    requires
        terms@.len() <= MAX_SCORED_TERMS,
    ensures
        r == item_score(*item, text::strs_of(terms@)),
        0 <= r <= 120 * terms@.len(),
{
    let mut fields: Vec<String> = Vec::new();
    fields.push(normalized_search_text(item.item_code.as_str()));
    fields.push(normalized_search_text(item.item_name.as_str()));
    fields.push(normalized_search_text(item.name.as_str()));
    let t0 = transliterate_uzbek(item.item_code.as_str());
    fields.push(normalized_search_text(t0.as_str()));
    let t1 = transliterate_uzbek(item.item_name.as_str());
    fields.push(normalized_search_text(t1.as_str()));
    let t2 = transliterate_uzbek(item.name.as_str());
    fields.push(normalized_search_text(t2.as_str()));
    let ghost fs = text::strs_of(fields@);
    assert(fs =~= item_fields(*item));
    let ghost ts = text::strs_of(terms@);
    let nt = terms.len();
    let nf = fields.len();
    let mut total: i32 = 0;
    let mut t: usize = 0;
    while t < nt
        invariant
            nt == terms@.len(),
            nt <= MAX_SCORED_TERMS,
            nf == fields@.len(),
            fs == text::strs_of(fields@),
            ts == text::strs_of(terms@),
            t <= nt,
            total == terms_total(fs, ts.take(t as int)),
            0 <= total <= 120 * t,
        decreases nt - t,
    {
        let mut best: i32 = 0;
        let mut f: usize = 0;
        while f < nf
            invariant
                nf == fields@.len(),
                fs == text::strs_of(fields@),
                ts == text::strs_of(terms@),
                t < nt,
                nt == terms@.len(),
                f <= nf,
                best == best_score(fs.take(f as int), ts[t as int]),
                0 <= best <= 120,
            decreases nf - f,
        {
            let s = fuzzy_field_score(fields[f].as_str(), terms[t].as_str());
            assert(fs.take(f + 1).drop_last() =~= fs.take(f as int));
            assert(fs.take(f + 1).last() == fields@[f as int]@);
            if s > best {
                best = s;
            }
            f = f + 1;
        }
        assert(fs.take(nf as int) =~= fs);
        assert(ts.take(t + 1).drop_last() =~= ts.take(t as int));
        assert(ts.take(t + 1).last() == ts[t as int]);
        total = total + best;
        t = t + 1;
    }
    assert(ts.take(nt as int) =~= ts);
    total
}

} // verus!

verus! {

/// Lexicographic order of character sequences by code point, a proper
/// prefix coming first (the order of `String` comparison).
pub open spec fn code_less(a: Seq<char>, b: Seq<char>) -> bool
    decreases a.len(),
{
    if a.len() == 0 {
        b.len() > 0
    } else if b.len() == 0 {
        false
    } else if a[0] != b[0] {
        (a[0] as int) < (b[0] as int)
    } else {
        code_less(a.drop_first(), b.drop_first())
    }
}

/// No sequence comes before itself.
pub proof fn lemma_code_less_irreflexive(a: Seq<char>)
    ensures
        !code_less(a, a),
    decreases a.len(),
{
    if a.len() > 0 {
        lemma_code_less_irreflexive(a.drop_first());
    }
}

/// Of two different sequences, one comes first, and not both.
pub proof fn lemma_code_less_total(a: Seq<char>, b: Seq<char>)
    ensures
        a != b ==> (code_less(a, b) || code_less(b, a)),
        !(code_less(a, b) && code_less(b, a)),
    decreases a.len(),
{
    if a.len() > 0 && b.len() > 0 {
        lemma_code_less_total(a.drop_first(), b.drop_first());
        if a[0] == b[0] && a != b {
            assert(a =~= seq![a[0]] + a.drop_first());
            assert(b =~= seq![b[0]] + b.drop_first());
        }
    } else if a.len() == 0 && b.len() == 0 {
        assert(a =~= b);
    }
}

/// The order is transitive.
pub proof fn lemma_code_less_transitive(a: Seq<char>, b: Seq<char>, c: Seq<char>)
    requires
        code_less(a, b),
        code_less(b, c),
    ensures
        code_less(a, c),
    decreases a.len(),
{
    if a.len() > 0 && b.len() > 0 && c.len() > 0 && a[0] == b[0] && b[0] == c[0] {
        lemma_code_less_transitive(a.drop_first(), b.drop_first(), c.drop_first());
    }
}

/// Whether the entry (score `sa`, code `ca`, position `ia`) ranks before
/// (score `sb`, code `cb`, position `ib`): higher score first, then the
/// smaller code, then the earlier position.
pub open spec fn key_before(sa: int, ca: Seq<char>, ia: int, sb: int, cb: Seq<char>, ib: int) -> bool {
    sa > sb || (sa == sb && (code_less(ca, cb) || (ca == cb && ia < ib)))
}

/// Whether `items[i]` ranks before `items[j]` for `terms`.
pub open spec fn ranks_before(items: Seq<Item>, terms: Seq<Seq<char>>, i: int, j: int) -> bool {
    key_before(
        item_score(items[i], terms),
        items[i].item_code@,
        i,
        item_score(items[j], terms),
        items[j].item_code@,
        j,
    )
}

/// Whether `order` lists exactly the positions of the items with a positive
/// score, each once, best ranked first.
pub open spec fn is_ranking(items: Seq<Item>, terms: Seq<Seq<char>>, order: Seq<int>) -> bool {
    &&& forall|k: int|
        0 <= k < order.len() ==> 0 <= #[trigger] order[k] < items.len() && item_score(
            items[order[k]],
            terms,
        ) > 0
    &&& forall|i: int|
        0 <= i < items.len() && item_score(#[trigger] items[i], terms) > 0 ==> order.contains(i)
    &&& forall|a: int, b: int|
        0 <= a < b < order.len() ==> ranks_before(items, terms, #[trigger] order[a], #[trigger] order[b])
}

/// Ranking by key is a strict total order on distinct positions.
pub proof fn lemma_key_order(
    sa: int,
    ca: Seq<char>,
    ia: int,
    sb: int,
    cb: Seq<char>,
    ib: int,
    sc: int,
    cc: Seq<char>,
    ic: int,
)
    ensures
        ia != ib ==> (key_before(sa, ca, ia, sb, cb, ib) || key_before(sb, cb, ib, sa, ca, ia)),
        !(key_before(sa, ca, ia, sb, cb, ib) && key_before(sb, cb, ib, sa, ca, ia)),
        key_before(sa, ca, ia, sb, cb, ib) && key_before(sb, cb, ib, sc, cc, ic) ==> key_before(
            sa,
            ca,
            ia,
            sc,
            cc,
            ic,
        ),
{
    lemma_code_less_total(ca, cb);
    lemma_code_less_irreflexive(ca);
    lemma_code_less_irreflexive(cb);
    lemma_code_less_irreflexive(cc);
    if code_less(ca, cb) && code_less(cb, cc) {
        lemma_code_less_transitive(ca, cb, cc);
    }
}

/// `code_less` on character vectors.
fn code_less_exec(a: &Vec<char>, b: &Vec<char>) -> (r: bool)
    ensures
        r == code_less(a@, b@),
{
    let mut i: usize = 0;
    assert(a@.skip(0) =~= a@);
    assert(b@.skip(0) =~= b@);
    while i < a.len() && i < b.len()
        invariant
            i <= a@.len(),
            i <= b@.len(),
            code_less(a@, b@) == code_less(a@.skip(i as int), b@.skip(i as int)),
        decreases a@.len() - i,
    {
        if a[i] != b[i] {
            return a[i] < b[i];
        }
        assert(a@.skip(i as int).drop_first() =~= a@.skip(i + 1));
        assert(b@.skip(i as int).drop_first() =~= b@.skip(i + 1));
        i = i + 1;
    }
    i == a.len() && i < b.len()
}

/// `key_before` on concrete values.
fn key_before_exec(sa: i32, ca: &Vec<char>, ia: usize, sb: i32, cb: &Vec<char>, ib: usize) -> (r: bool)
    ensures
        r == key_before(sa as int, ca@, ia as int, sb as int, cb@, ib as int),
{
    if sa != sb {
        return sa > sb;
    }
    if code_less_exec(ca, cb) {
        return true;
    }
    chars_equal(ca, cb) && ia < ib
}

/// The entries of a ranking under construction: an item, its score and its
/// position in the input.
pub open spec fn entry_ok(orig: Seq<Item>, terms: Seq<Seq<char>>, e: (Item, i32, usize), lo: int) -> bool {
    &&& lo <= e.2 < orig.len()
    &&& e.0 == orig[e.2 as int]
    &&& e.1 == item_score(orig[e.2 as int], terms)
    &&& e.1 > 0
}

/// A ranking, under construction, of the items from position `lo` on.
pub open spec fn partial_ranking(
    orig: Seq<Item>,
    terms: Seq<Seq<char>>,
    sorted: Seq<(Item, i32, usize)>,
    lo: int,
) -> bool {
    &&& forall|k: int| 0 <= k < sorted.len() ==> entry_ok(orig, terms, #[trigger] sorted[k], lo)
    &&& forall|i: int|
        lo <= i < orig.len() && item_score(#[trigger] orig[i], terms) > 0 ==> exists|k: int|
            0 <= k < sorted.len() && (#[trigger] sorted[k]).2 == i
    &&& forall|a: int, b: int|
        0 <= a < b < sorted.len() ==> ranks_before(
            orig,
            terms,
            (#[trigger] sorted[a]).2 as int,
            (#[trigger] sorted[b]).2 as int,
        )
}

proof fn lemma_skip_unmatched(
    orig: Seq<Item>,
    terms: Seq<Seq<char>>,
    sorted: Seq<(Item, i32, usize)>,
    p: int,
)
    requires
        0 <= p < orig.len(),
        partial_ranking(orig, terms, sorted, p + 1),
        item_score(orig[p], terms) <= 0,
    ensures
        partial_ranking(orig, terms, sorted, p),
{
}

proof fn lemma_insert_entries_ok(
    orig: Seq<Item>,
    terms: Seq<Seq<char>>,
    sorted: Seq<(Item, i32, usize)>,
    p: int,
    pos: int,
    entry: (Item, i32, usize),
)
    requires
        0 <= pos <= sorted.len(),
        forall|k: int| 0 <= k < sorted.len() ==> entry_ok(orig, terms, #[trigger] sorted[k], p + 1),
        entry_ok(orig, terms, entry, p),
    ensures
        forall|k: int|
            0 <= k < sorted.insert(pos, entry).len() ==> entry_ok(
                orig,
                terms,
                #[trigger] sorted.insert(pos, entry)[k],
                p,
            ),
{
    let ns = sorted.insert(pos, entry);
    assert forall|k: int| 0 <= k < ns.len() implies entry_ok(orig, terms, #[trigger] ns[k], p) by {
        if k < pos {
            assert(ns[k] == sorted[k]);
        } else if k > pos {
            assert(ns[k] == sorted[k - 1]);
        }
    }
}

proof fn lemma_insert_covers(
    orig: Seq<Item>,
    terms: Seq<Seq<char>>,
    sorted: Seq<(Item, i32, usize)>,
    p: int,
    pos: int,
    entry: (Item, i32, usize),
)
    requires
        0 <= pos <= sorted.len(),
        entry.2 == p,
        forall|i: int|
            p + 1 <= i < orig.len() && item_score(#[trigger] orig[i], terms) > 0 ==> exists|k: int|
                0 <= k < sorted.len() && (#[trigger] sorted[k]).2 == i,
    ensures
        forall|i: int|
            p <= i < orig.len() && item_score(#[trigger] orig[i], terms) > 0 ==> exists|k: int|
                0 <= k < sorted.insert(pos, entry).len() && (#[trigger] sorted.insert(pos, entry)[k]).2
                    == i,
{
    let ns = sorted.insert(pos, entry);
    assert forall|i: int|
        p <= i < orig.len() && item_score(#[trigger] orig[i], terms) > 0 implies exists|k: int|
            0 <= k < ns.len() && (#[trigger] ns[k]).2 == i by {
        if i == p {
            assert(ns[pos].2 == i);
        } else {
            let k = choose|k: int| 0 <= k < sorted.len() && (#[trigger] sorted[k]).2 == i;
            if k < pos {
                assert(ns[k] == sorted[k]);
            } else {
                assert(ns[k + 1] == sorted[k]);
            }
        }
    }
}

proof fn lemma_insert_ordered(
    orig: Seq<Item>,
    terms: Seq<Seq<char>>,
    sorted: Seq<(Item, i32, usize)>,
    p: int,
    pos: int,
    entry: (Item, i32, usize),
)
    requires
        0 <= p < orig.len(),
        0 <= pos <= sorted.len(),
        entry.2 == p,
        forall|k: int| 0 <= k < sorted.len() ==> entry_ok(orig, terms, #[trigger] sorted[k], p + 1),
        forall|a: int, b: int|
            0 <= a < b < sorted.len() ==> ranks_before(
                orig,
                terms,
                (#[trigger] sorted[a]).2 as int,
                (#[trigger] sorted[b]).2 as int,
            ),
        forall|k: int| 0 <= k < pos ==> !ranks_before(orig, terms, p, (#[trigger] sorted[k]).2 as int),
        pos < sorted.len() ==> ranks_before(orig, terms, p, sorted[pos].2 as int),
    ensures
        forall|a: int, b: int|
            0 <= a < b < sorted.insert(pos, entry).len() ==> ranks_before(
                orig,
                terms,
                (#[trigger] sorted.insert(pos, entry)[a]).2 as int,
                (#[trigger] sorted.insert(pos, entry)[b]).2 as int,
            ),
{
    let ns = sorted.insert(pos, entry);
    assert forall|a: int, b: int|
        0 <= a < b < ns.len() implies ranks_before(
            orig,
            terms,
            (#[trigger] ns[a]).2 as int,
            (#[trigger] ns[b]).2 as int,
        ) by {
        let ia = ns[a].2 as int;
        let ib = ns[b].2 as int;
        if a < pos && b < pos {
            assert(ns[a] == sorted[a]);
            assert(ns[b] == sorted[b]);
        } else if a > pos && b > pos {
            assert(ns[a] == sorted[a - 1]);
            assert(ns[b] == sorted[b - 1]);
        } else if a == pos {
            assert(ns[b] == sorted[b - 1]);
            let ip = sorted[pos].2 as int;
            lemma_key_order(
                item_score(orig[p], terms),
                orig[p].item_code@,
                p,
                item_score(orig[ip], terms),
                orig[ip].item_code@,
                ip,
                item_score(orig[ib], terms),
                orig[ib].item_code@,
                ib,
            );
            if b - 1 > pos {
                assert(ranks_before(orig, terms, ip, ib));
            }
        } else if b == pos {
            assert(ns[a] == sorted[a]);
            assert(entry_ok(orig, terms, sorted[a], p + 1));
            assert(!ranks_before(orig, terms, p, ia));
            lemma_key_order(
                item_score(orig[p], terms),
                orig[p].item_code@,
                p,
                item_score(orig[ia], terms),
                orig[ia].item_code@,
                ia,
                0,
                seq![],
                0,
            );
        } else {
            assert(ns[a] == sorted[a]);
            assert(ns[b] == sorted[b - 1]);
            let ip = sorted[pos].2 as int;
            assert(entry_ok(orig, terms, sorted[a], p + 1));
            lemma_key_order(
                item_score(orig[ia], terms),
                orig[ia].item_code@,
                ia,
                item_score(orig[p], terms),
                orig[p].item_code@,
                p,
                item_score(orig[ib], terms),
                orig[ib].item_code@,
                ib,
            );
            lemma_key_order(
                item_score(orig[p], terms),
                orig[p].item_code@,
                p,
                item_score(orig[ip], terms),
                orig[ip].item_code@,
                ip,
                item_score(orig[ib], terms),
                orig[ib].item_code@,
                ib,
            );
            lemma_key_order(
                item_score(orig[p], terms),
                orig[p].item_code@,
                p,
                item_score(orig[ia], terms),
                orig[ia].item_code@,
                ia,
                0,
                seq![],
                0,
            );
            if b - 1 > pos {
                assert(ranks_before(orig, terms, ip, ib));
            }
        }
    }
}

proof fn lemma_insert_entry(
    orig: Seq<Item>,
    terms: Seq<Seq<char>>,
    sorted: Seq<(Item, i32, usize)>,
    p: int,
    pos: int,
    entry: (Item, i32, usize),
)
    requires
        0 <= p < orig.len(),
        0 <= pos <= sorted.len(),
        partial_ranking(orig, terms, sorted, p + 1),
        entry.2 == p,
        entry_ok(orig, terms, entry, p),
        forall|k: int| 0 <= k < pos ==> !ranks_before(orig, terms, p, (#[trigger] sorted[k]).2 as int),
        pos < sorted.len() ==> ranks_before(orig, terms, p, sorted[pos].2 as int),
    ensures
        partial_ranking(orig, terms, sorted.insert(pos, entry), p),
{
    lemma_insert_entries_ok(orig, terms, sorted, p, pos, entry);
    lemma_insert_covers(orig, terms, sorted, p, pos, entry);
    lemma_insert_ordered(orig, terms, sorted, p, pos, entry);
}

/// Keeps the items that match `terms` at all, best match first; equal
/// scores go by item code, then by their order in the input.
pub fn rank_items(items: Vec<Item>, terms: &[String]) -> (r: Vec<Item>)
    requires
        terms@.len() <= MAX_SCORED_TERMS,
    ensures
        exists|order: Seq<int>|
            is_ranking(items@, text::strs_of(terms@), order) && r@ == order.map_values(
                |i: int| items@[i],
            ),
{
    let ghost orig = items@;
    let ghost ts = text::strs_of(terms@);
    let mut items = items;
    let mut sorted: Vec<(Item, i32, usize)> = Vec::new();
    let mut p: usize = items.len();
    assert(orig.take(p as int) =~= orig);
    while p > 0
        invariant
            terms@.len() <= MAX_SCORED_TERMS,
            ts == text::strs_of(terms@),
            p <= orig.len(),
            items@ == orig.take(p as int),
            partial_ranking(orig, ts, sorted@, p as int),
        decreases p,
    {
        let item = items.pop().unwrap();
        p = p - 1;
        assert(item == orig[p as int]);
        assert(items@ =~= orig.take(p as int));
        let score = score_item_match(&item, terms);
        if score > 0 {
            let code = chars_of(item.item_code.as_str());
            let mut pos: usize = 0;
            while pos < sorted.len() && !key_before_exec(
                score,
                &code,
                p,
                sorted[pos].1,
                &chars_of(sorted[pos].0.item_code.as_str()),
                sorted[pos].2,
            )
                invariant
                    pos <= sorted@.len(),
                    forall|k: int|
                        0 <= k < pos ==> !ranks_before(orig, ts, p as int, (#[trigger] sorted@[k]).2 as int),
                    partial_ranking(orig, ts, sorted@, p + 1),
                    item == orig[p as int],
                    score == item_score(orig[p as int], ts),
                    code@ == orig[p as int].item_code@,
                decreases sorted@.len() - pos,
            {
                assert(entry_ok(orig, ts, sorted@[pos as int], p + 1));
                pos = pos + 1;
            }
            proof {
                if pos < sorted@.len() {
                    assert(entry_ok(orig, ts, sorted@[pos as int], p + 1));
                }
                lemma_insert_entry(orig, ts, sorted@, p as int, pos as int, (item, score, p));
            }
            sorted.insert(pos, (item, score, p));
        } else {
            proof {
                lemma_skip_unmatched(orig, ts, sorted@, p as int);
            }
        }
    }
    let ghost done = sorted@;
    let ghost order = done.map_values(|e: (Item, i32, usize)| e.2 as int);
    let mut result: Vec<Item> = Vec::new();
    let total = sorted.len();
    let mut k: usize = 0;
    while k < total
        invariant
            total == done.len(),
            k <= total,
            sorted@ == done.skip(k as int),
            result@ == done.take(k as int).map_values(|e: (Item, i32, usize)| e.0),
        decreases total - k,
    {
        let (it, _s, _i) = sorted.remove(0);
        assert(sorted@ =~= done.skip(k + 1));
        result.push(it);
        assert(result@ =~= done.take(k + 1).map_values(|e: (Item, i32, usize)| e.0));
        k = k + 1;
    }
    assert(done.take(total as int) =~= done);
    assert(result@ =~= order.map_values(|i: int| orig[i]));
    assert(is_ranking(orig, ts, order)) by {
        assert forall|i: int|
            0 <= i < orig.len() && item_score(#[trigger] orig[i], ts) > 0 implies order.contains(i) by {
            let k = choose|k: int| 0 <= k < done.len() && (#[trigger] done[k]).2 == i;
            assert(order[k] == i);
        }
    }
    result
}

} // verus!

verus! {

/// Whether `o` lists positions of `items`, each ranked before every later one.
pub open spec fn strictly_ranked(items: Seq<Item>, terms: Seq<Seq<char>>, o: Seq<int>) -> bool {
    &&& forall|k: int| 0 <= k < o.len() ==> 0 <= #[trigger] o[k] < items.len()
    &&& forall|a: int, b: int|
        0 <= a < b < o.len() ==> ranks_before(items, terms, #[trigger] o[a], #[trigger] o[b])
}

proof fn lemma_not_before_self(items: Seq<Item>, terms: Seq<Seq<char>>, i: int)
    ensures
        !ranks_before(items, terms, i, i),
{
    let s = item_score(items[i], terms);
    let c = items[i].item_code@;
    lemma_key_order(s, c, i, s, c, i, s, c, i);
}

#[verifier::spinoff_prover]
#[verifier::rlimit(40)]
proof fn lemma_ranked_unique(items: Seq<Item>, terms: Seq<Seq<char>>, o1: Seq<int>, o2: Seq<int>)
    requires
        strictly_ranked(items, terms, o1),
        strictly_ranked(items, terms, o2),
        forall|i: int| o1.contains(i) <==> o2.contains(i),
    ensures
        o1 == o2,
    decreases o1.len(),
{
    if o1.len() == 0 {
        if o2.len() > 0 {
            assert(o2.contains(o2[0]));
        }
        assert(o1 =~= o2);
    } else if o2.len() == 0 {
        assert(o1.contains(o1[0]));
    } else {
        let x = o1[0];
        let y = o2[0];
        if x != y {
            assert(o1.contains(x));
            let j = choose|j: int| 0 <= j < o2.len() && o2[j] == x;
            assert(o2.contains(y));
            let i = choose|i: int| 0 <= i < o1.len() && o1[i] == y;
            assert(j > 0 && i > 0);
            assert(ranks_before(items, terms, o2[0], o2[j]));
            assert(ranks_before(items, terms, o1[0], o1[i]));
            lemma_key_order(
                item_score(items[x], terms),
                items[x].item_code@,
                x,
                item_score(items[y], terms),
                items[y].item_code@,
                y,
                0,
                seq![],
                0,
            );
        }
        let r1 = o1.drop_first();
        let r2 = o2.drop_first();
        assert forall|i: int| r1.contains(i) <==> r2.contains(i) by {
            if r1.contains(i) {
                let k = choose|k: int| 0 <= k < r1.len() && r1[k] == i;
                assert(ranks_before(items, terms, o1[0], o1[k + 1]));
                lemma_not_before_self(items, terms, x);
                assert(o1.contains(i));
                let k2 = choose|k2: int| 0 <= k2 < o2.len() && o2[k2] == i;
                assert(k2 != 0);
                assert(r2[k2 - 1] == i);
            }
            if r2.contains(i) {
                let k = choose|k: int| 0 <= k < r2.len() && r2[k] == i;
                assert(ranks_before(items, terms, o2[0], o2[k + 1]));
                lemma_not_before_self(items, terms, x);
                assert(o2.contains(i));
                let k1 = choose|k1: int| 0 <= k1 < o1.len() && o1[k1] == i;
                assert(k1 != 0);
                assert(r1[k1 - 1] == i);
            }
        }
        assert forall|a: int, b: int| 0 <= a < b < r1.len() implies ranks_before(
            items,
            terms,
            #[trigger] r1[a],
            #[trigger] r1[b],
        ) by {
            assert(r1[a] == o1[a + 1] && r1[b] == o1[b + 1]);
        }
        assert forall|a: int, b: int| 0 <= a < b < r2.len() implies ranks_before(
            items,
            terms,
            #[trigger] r2[a],
            #[trigger] r2[b],
        ) by {
            assert(r2[a] == o2[a + 1] && r2[b] == o2[b + 1]);
        }
        assert forall|k: int| 0 <= k < r1.len() implies 0 <= #[trigger] r1[k] < items.len() by {
            assert(r1[k] == o1[k + 1]);
        }
        assert forall|k: int| 0 <= k < r2.len() implies 0 <= #[trigger] r2[k] < items.len() by {
            assert(r2[k] == o2[k + 1]);
        }
        lemma_ranked_unique(items, terms, r1, r2);
        assert(o1 =~= seq![x] + r1);
        assert(o2 =~= seq![y] + r2);
    }
}

/// The ranking that `rank_items` returns is determined by the items and the
/// terms: any two orders meeting `is_ranking` are the same.
pub proof fn lemma_ranking_unique(
    items: Seq<Item>,
    terms: Seq<Seq<char>>,
    o1: Seq<int>,
    o2: Seq<int>,
)
    requires
        is_ranking(items, terms, o1),
        is_ranking(items, terms, o2),
    ensures
        o1 == o2,
{
    assert forall|i: int| o1.contains(i) <==> o2.contains(i) by {
        if o1.contains(i) {
            let k = choose|k: int| 0 <= k < o1.len() && o1[k] == i;
            assert(0 <= o1[k] < items.len());
        }
        if o2.contains(i) {
            let k = choose|k: int| 0 <= k < o2.len() && o2[k] == i;
            assert(0 <= o2[k] < items.len());
        }
    }
    lemma_ranked_unique(items, terms, o1, o2);
}

} // verus!

verus! {

/// Whether `idx` places the characters of `t`, in order, at strictly
/// increasing positions of `f`.
pub open spec fn embeds(t: Seq<char>, f: Seq<char>, idx: Seq<int>) -> bool {
    &&& idx.len() == t.len()
    &&& forall|k: int| 0 <= k < idx.len() ==> 0 <= #[trigger] idx[k] < f.len() && f[idx[k]] == t[k]
    &&& forall|a: int, b: int| 0 <= a < b < idx.len() ==> #[trigger] idx[a] < #[trigger] idx[b]
}

/// Whether `t` is a subsequence of `f`.
pub open spec fn is_subsequence(t: Seq<char>, f: Seq<char>) -> bool {
    exists|idx: Seq<int>| embeds(t, f, idx)
}

proof fn lemma_greedy_monotone(f: Seq<char>, t: Seq<char>)
    requires
        f.len() > 0,
    ensures
        greedy_matched(f.drop_last(), t) <= greedy_matched(f, t),
{
}

/// What the greedy scan matches is a prefix of `t` that embeds in `f`.
proof fn lemma_greedy_sound(f: Seq<char>, t: Seq<char>)
    ensures
        greedy_matched(f, t) <= t.len(),
        is_subsequence(t.take(greedy_matched(f, t) as int), f),
    decreases f.len(),
{
    lemma_greedy_bounded(f, t);
    let g = greedy_matched(f, t) as int;
    if f.len() == 0 {
        let idx: Seq<int> = seq![];
        assert(embeds(t.take(0), f, idx));
    } else {
        let fp = f.drop_last();
        lemma_greedy_sound(fp, t);
        let k = greedy_matched(fp, t) as int;
        let idx = choose|idx: Seq<int>| embeds(t.take(k), fp, idx);
        if k < t.len() && f.last() == t[k] {
            let idx2 = idx.push(f.len() - 1);
            assert forall|j: int| 0 <= j < idx2.len() implies 0 <= #[trigger] idx2[j] < f.len()
                && f[idx2[j]] == t.take(g)[j] by {
                if j < k {
                    assert(idx2[j] == idx[j]);
                    assert(fp[idx[j]] == f[idx[j]]);
                }
            }
            assert forall|a: int, b: int| 0 <= a < b < idx2.len() implies #[trigger] idx2[a]
                < #[trigger] idx2[b] by {
                assert(idx2[a] == idx[a]);
                if b < k {
                    assert(idx2[b] == idx[b]);
                }
            }
            assert(embeds(t.take(g), f, idx2));
        } else {
            assert forall|j: int| 0 <= j < idx.len() implies 0 <= #[trigger] idx[j] < f.len() && f[idx[j]]
                == t.take(g)[j] by {
                assert(fp[idx[j]] == f[idx[j]]);
            }
            assert(embeds(t.take(g), f, idx));
        }
    }
}

/// Whenever `t.take(m)` embeds in `f`, the greedy scan matches at least `m`.
proof fn lemma_greedy_optimal(f: Seq<char>, t: Seq<char>, m: int, idx: Seq<int>)
    requires
        0 <= m <= t.len(),
        embeds(t.take(m), f, idx),
    ensures
        greedy_matched(f, t) >= m,
    decreases f.len(),
{
    if m > 0 {
        if f.len() == 0 {
            assert(0 <= idx[0] < f.len());
        } else {
            let fp = f.drop_last();
            if idx[m - 1] < f.len() - 1 {
                assert forall|j: int| 0 <= j < idx.len() implies 0 <= #[trigger] idx[j] < fp.len()
                    && fp[idx[j]] == t.take(m)[j] by {
                    if j < m - 1 {
                        assert(idx[j] < idx[m - 1]);
                    }
                }
                lemma_greedy_optimal(fp, t, m, idx);
                lemma_greedy_monotone(f, t);
            } else {
                let idx1 = idx.drop_last();
                assert forall|j: int| 0 <= j < idx1.len() implies 0 <= #[trigger] idx1[j] < fp.len()
                    && fp[idx1[j]] == t.take(m - 1)[j] by {
                    assert(idx1[j] == idx[j]);
                    assert(idx[j] < idx[m - 1]);
                    assert(t.take(m)[j] == t[j]);
                }
                assert forall|a: int, b: int| 0 <= a < b < idx1.len() implies #[trigger] idx1[a]
                    < #[trigger] idx1[b] by {
                    assert(idx1[a] == idx[a] && idx1[b] == idx[b]);
                }
                lemma_greedy_optimal(fp, t, m - 1, idx1);
                assert(f.last() == t.take(m)[m - 1]);
            }
        }
    }
}

/// The greedy scan that `subsequence_match` performs matches all of `t`
/// exactly when `t` is a subsequence of `f`.
pub proof fn lemma_greedy_matches_iff_subsequence(f: Seq<char>, t: Seq<char>)
    ensures
        (greedy_matched(f, t) == t.len()) <==> is_subsequence(t, f),
{
    lemma_greedy_sound(f, t);
    if greedy_matched(f, t) == t.len() {
        assert(t.take(t.len() as int) =~= t);
    }
    if is_subsequence(t, f) {
        let idx = choose|idx: Seq<int>| embeds(t, f, idx);
        assert(t.take(t.len() as int) =~= t);
        lemma_greedy_optimal(f, t, t.len() as int, idx);
        lemma_greedy_bounded(f, t);
    }
}

} // verus!

verus! {

/// The Levenshtein distance does not depend on the order of its arguments.
pub proof fn lemma_edit_distance_symmetric(a: Seq<char>, b: Seq<char>)
    ensures
        edit_distance(a, b) == edit_distance(b, a),
    decreases a.len() + b.len(),
{
    if a.len() > 0 && b.len() > 0 {
        lemma_edit_distance_symmetric(a.drop_last(), b);
        lemma_edit_distance_symmetric(a, b.drop_last());
        lemma_edit_distance_symmetric(a.drop_last(), b.drop_last());
    }
}

} // verus!

verus! {

/// The larger of two lengths.
pub open spec fn max_len(a: nat, b: nat) -> nat {
    if a >= b {
        a
    } else {
        b
    }
}

/// The distance lies between the difference of the lengths and the larger
/// length, and it is zero exactly for equal sequences.
pub proof fn lemma_edit_distance_range(a: Seq<char>, b: Seq<char>)
    ensures
        edit_distance(a, b) <= max_len(a.len(), b.len()),
        a.len() - b.len() <= edit_distance(a, b),
        b.len() - a.len() <= edit_distance(a, b),
        (edit_distance(a, b) == 0) <==> (a == b),
    decreases a.len() + b.len(),
{
    if a.len() == 0 || b.len() == 0 {
        if a.len() == 0 && b.len() == 0 {
            assert(a =~= b);
        }
    } else {
        lemma_edit_distance_range(a.drop_last(), b);
        lemma_edit_distance_range(a, b.drop_last());
        lemma_edit_distance_range(a.drop_last(), b.drop_last());
        if edit_distance(a, b) == 0 {
            assert(a.drop_last() == b.drop_last());
            assert(a =~= a.drop_last().push(a.last()));
            assert(b =~= b.drop_last().push(b.last()));
        }
        if a == b {
            lemma_edit_distance_self(a);
        }
    }
}

/// The values a typo score can take.
pub open spec fn typo_value(v: int) -> bool {
    v == 0 || v == 58 || v == 68 || v == 74 || v == 97 || v == 110
}

/// Whether some word of `tokens`, compacted, is non-empty and equal to `term`.
pub open spec fn has_equal_token(tokens: Seq<Seq<char>>, term: Seq<char>) -> bool {
    exists|k: int|
        0 <= k < tokens.len() && crate::search::compacted(#[trigger] tokens[k]).len() > 0
            && crate::search::compacted(tokens[k]) == term
}

proof fn lemma_typo_fold_values(best: int, tokens: Seq<Seq<char>>, term: Seq<char>)
    requires
        typo_value(best),
        best < 110,
    ensures
        typo_value(typo_fold(best, tokens, term)),
        (typo_fold(best, tokens, term) == 110) <==> has_equal_token(tokens, term),
    decreases tokens.len(),
{
    if tokens.len() > 0 {
        let rest = tokens.drop_first();
        let token = crate::search::compacted(tokens[0]);
        lemma_typo_fold_values(best, rest, term);
        lemma_typo_fold_values(max_int(best, 97), rest, term);
        lemma_typo_fold_values(max_int(best, 74), rest, term);
        lemma_typo_fold_values(max_int(best, 68), rest, term);
        lemma_typo_fold_values(max_int(best, 58), rest, term);
        if has_equal_token(rest, term) {
            let k = choose|k: int|
                0 <= k < rest.len() && crate::search::compacted(#[trigger] rest[k]).len() > 0
                    && crate::search::compacted(rest[k]) == term;
            assert(tokens[k + 1] == rest[k]);
        }
        if has_equal_token(tokens, term) && !(token.len() > 0 && token == term) {
            let k = choose|k: int|
                0 <= k < tokens.len() && crate::search::compacted(#[trigger] tokens[k]).len() > 0
                    && crate::search::compacted(tokens[k]) == term;
            assert(k != 0);
            assert(rest[k - 1] == tokens[k]);
        }
    }
}

/// A typo score is one of 0, 58, 68, 74, 97 and 110; it is 0 for an empty
/// term, and 110 exactly when some word of the field, compacted, equals
/// the (non-empty) term.
pub proof fn lemma_typo_score_values(field: Seq<char>, term: Seq<char>)
    ensures
        typo_value(typo_score(field, term)),
        term.len() == 0 ==> typo_score(field, term) == 0,
        (typo_score(field, term) == 110) <==> (term.len() > 0 && has_equal_token(
            text::split_ws(field),
            term,
        )),
{
    lemma_typo_fold_values(0, text::split_ws(field), term);
}

/// The values a fuzzy score can take.
pub open spec fn fuzzy_value(v: int) -> bool {
    v == 0 || v == 39 || v == 40 || v == 44 || v == 45 || v == 55 || typo_value(v) || v == 72
        || v == 75 || v == 90 || v == 98 || v == 99 || v == 100 || v == 120
}

/// A fuzzy score takes one of fifteen values; a term of at most three
/// characters (compacted) scores only 0, 90, 98, 99, 100 or 120; an empty
/// field or term scores 0; a non-empty field scores 120 against itself.
pub proof fn lemma_fuzzy_score_values(f: Seq<char>, t: Seq<char>)
    ensures
        fuzzy_value(fuzzy_score(f, t)),
        crate::search::compacted(crate::search::normalized(t)).len() <= 3 ==> {
            let v = fuzzy_score(f, t);
            v == 0 || v == 90 || v == 98 || v == 99 || v == 100 || v == 120
        },
        crate::search::normalized(f).len() == 0 || crate::search::normalized(t).len() == 0
            ==> fuzzy_score(f, t) == 0,
        crate::search::normalized(f).len() > 0 ==> fuzzy_score(f, f) == 120,
{
    lemma_typo_score_values(crate::search::normalized(f), crate::search::normalized(t));
}

/// Without search terms no item is ranked.
pub proof fn lemma_ranking_without_terms(items: Seq<Item>, order: Seq<int>)
    requires
        is_ranking(items, seq![], order),
    ensures
        order.len() == 0,
{
    if order.len() > 0 {
        assert(0 <= order[0] < items.len());
        assert(item_score(items[order[0]], seq![]) == 0);
    }
}

} // verus!

verus! {

proof fn lemma_typo_fold_at_least(best: int, tokens: Seq<Seq<char>>, term: Seq<char>)
    requires
        0 <= best <= 110,
    ensures
        typo_fold(best, tokens, term) >= best,
    decreases tokens.len(),
{
    if tokens.len() > 0 {
        let rest = tokens.drop_first();
        lemma_typo_fold_at_least(best, rest, term);
        lemma_typo_fold_at_least(max_int(best, 97), rest, term);
        lemma_typo_fold_at_least(max_int(best, 74), rest, term);
        lemma_typo_fold_at_least(max_int(best, 68), rest, term);
        lemma_typo_fold_at_least(max_int(best, 58), rest, term);
    }
}

proof fn lemma_typo_fold_near_word(best: int, tokens: Seq<Seq<char>>, term: Seq<char>, k: int)
    requires
        0 <= best <= 110,
        0 <= k < tokens.len(),
        crate::search::compacted(tokens[k]).len() > 0,
        edit_distance(crate::search::compacted(tokens[k]), term) <= 1,
    ensures
        typo_fold(best, tokens, term) >= 68,
    decreases tokens.len(),
{
    let rest = tokens.drop_first();
    if k == 0 {
        lemma_typo_fold_at_least(max_int(best, 97), rest, term);
        lemma_typo_fold_at_least(max_int(best, 74), rest, term);
        lemma_typo_fold_at_least(max_int(best, 68), rest, term);
    } else {
        assert(rest[k - 1] == tokens[k]);
        lemma_typo_fold_near_word(best, rest, term, k - 1);
        lemma_typo_fold_near_word(max_int(best, 97), rest, term, k - 1);
        lemma_typo_fold_near_word(max_int(best, 74), rest, term, k - 1);
        lemma_typo_fold_near_word(max_int(best, 68), rest, term, k - 1);
        lemma_typo_fold_near_word(max_int(best, 58), rest, term, k - 1);
    }
}

/// A term longer than three characters (in normal form, and once
/// compacted) that is at most one edit away from some word of the field,
/// compacted, always scores: one typo in any word still finds the field.
pub proof fn lemma_fuzzy_finds_near_word(f: Seq<char>, t: Seq<char>, k: int)
    requires
        0 <= k < text::split_ws(crate::search::normalized(f)).len(),
        crate::search::normalized(t).len() > 3,
        crate::search::compacted(crate::search::normalized(t)).len() > 3,
        edit_distance(
            crate::search::compacted(text::split_ws(crate::search::normalized(f))[k]),
            crate::search::normalized(t),
        ) <= 1,
    ensures
        fuzzy_score(f, t) > 0,
{
    let field = crate::search::normalized(f);
    let term = crate::search::normalized(t);
    let tokens = text::split_ws(field);
    let w = crate::search::compacted(tokens[k]);
    lemma_edit_distance_range(w, term);
    if field.len() == 0 {
        assert(text::split_ws(field).len() == 0);
    }
    lemma_typo_fold_near_word(0, tokens, term, k);
}

proof fn lemma_best_score_at_least(fields: Seq<Seq<char>>, term: Seq<char>, i: int)
    requires
        0 <= i < fields.len(),
    ensures
        best_score(fields, term) >= fuzzy_score(fields[i], term),
        best_score(fields, term) >= 0,
    decreases fields.len(),
{
    if i < fields.len() - 1 {
        assert(fields.drop_last()[i] == fields[i]);
        lemma_best_score_at_least(fields.drop_last(), term, i);
    } else if fields.len() > 1 {
        lemma_best_score_at_least(fields.drop_last(), term, 0);
    }
}

proof fn lemma_best_score_attained(fields: Seq<Seq<char>>, term: Seq<char>)
    ensures
        best_score(fields, term) == 0 || exists|i: int|
            0 <= i < fields.len() && best_score(fields, term) == fuzzy_score(
                #[trigger] fields[i],
                term,
            ),
    decreases fields.len(),
{
    if fields.len() > 0 {
        let init = fields.drop_last();
        lemma_best_score_attained(init, term);
        if best_score(fields, term) != 0 && best_score(fields, term) != fuzzy_score(
            fields[fields.len() - 1],
            term,
        ) {
            let i = choose|i: int|
                0 <= i < init.len() && best_score(init, term) == fuzzy_score(#[trigger] init[i], term);
            assert(fields[i] == init[i]);
        }
    }
}

/// Each of an item's fields counts: adding a term to the search raises the
/// item's score by at least that term's fuzzy score against the item code,
/// the item name and the name (each in normal form), and against the
/// normal forms of their transliterations; and by no more than the best of
/// these (or 0).
pub proof fn lemma_item_score_counts_every_field(item: Item, terms: Seq<Seq<char>>, t: Seq<char>)
    ensures
        ({
            let gain = item_score(item, terms.push(t)) - item_score(item, terms);
            let (code, item_name, name) = (item.item_code@, item.item_name@, item.name@);
            &&& gain >= fuzzy_score(crate::search::normalized(code), t)
            &&& gain >= fuzzy_score(crate::search::normalized(item_name), t)
            &&& gain >= fuzzy_score(crate::search::normalized(name), t)
            &&& gain >= fuzzy_score(crate::search::normalized(crate::search::transliterated(code)), t)
            &&& gain >= fuzzy_score(
                crate::search::normalized(crate::search::transliterated(item_name)),
                t,
            )
            &&& gain >= fuzzy_score(crate::search::normalized(crate::search::transliterated(name)), t)
            &&& gain >= 0
            &&& (gain == 0 || exists|i: int|
                0 <= i < 6 && gain == fuzzy_score(#[trigger] item_fields(item)[i], t))
        }),
        item_score(item, seq![t]) >= fuzzy_score(crate::search::normalized(item.item_name@), t),
{
    let fields = item_fields(item);
    assert(terms.push(t).drop_last() =~= terms);
    lemma_best_score_attained(fields, t);
    lemma_best_score_at_least(fields, t, 1);
    lemma_best_score_at_least(fields, t, 2);
    lemma_best_score_at_least(fields, t, 3);
    lemma_best_score_at_least(fields, t, 4);
    lemma_best_score_at_least(fields, t, 5);
    lemma_best_score_at_least(fields, t, 0);
    assert(fields[1] == crate::search::normalized(item.item_name@));
    let e: Seq<Seq<char>> = seq![];
    assert(e.push(t) =~= seq![t]);
    assert(seq![t].drop_last() =~= e);
    assert(seq![t].last() == t);
    assert(terms_total(fields, e) == 0);
    assert(terms_total(fields, seq![t]) == best_score(fields, t));
}

} // verus!

verus! {

/// The tiers of the fuzzy score, as lower bounds: equal normal forms score
/// 120; a term whose normal form begins the field's scores 100 (120 when
/// equal); a term beginning a later word of the field scores at least 90;
/// a term longer than three characters (compacted) found anywhere in the
/// field scores at least 75, and found in the (non-empty) field without
/// spaces at least 72; such a term scores at least 55 when it is a
/// subsequence of the field without spaces, 45 when one edit away from the
/// field, 44 when so without spaces, 40 when one edit away from the first
/// word, and 39 when so without spaces.
pub proof fn lemma_fuzzy_tiers(f: Seq<char>, t: Seq<char>)
    ensures
        ({
            let field = crate::search::normalized(f);
            let term = crate::search::normalized(t);
            let long = crate::search::compacted(term).len() > 3;
            &&& term.len() > 0 && field == term ==> fuzzy_score(f, t) == 120
            &&& term.len() > 0 && field != term && text::starts_with_seq(field, term)
                ==> fuzzy_score(f, t) == 100
            &&& term.len() > 0 && text::contains_seq(field, seq![' '] + term) ==> fuzzy_score(f, t)
                >= 90
            &&& term.len() > 0 && long && text::contains_seq(field, term) ==> fuzzy_score(f, t)
                >= 75
            &&& field.len() > 0 && term.len() > 0 && long && text::contains_seq(
                crate::search::compacted(field),
                crate::search::compacted(term),
            ) ==> fuzzy_score(f, t) >= 72
        }),
        ({
            let field = crate::search::normalized(f);
            let term = crate::search::normalized(t);
            let fc = crate::search::compacted(field);
            let tc = crate::search::compacted(term);
            let near = field.len() > 0 && term.len() > 0 && tc.len() > 3;
            &&& near && subsequence_spec(fc, tc) ==> fuzzy_score(f, t) >= 55
            &&& near && edit_distance(field, term) <= 1 ==> fuzzy_score(f, t) >= 45
            &&& near && edit_distance(fc, tc) <= 1 ==> fuzzy_score(f, t) >= 44
            &&& near && edit_distance(text::first_word(field), term) <= 1 ==> fuzzy_score(f, t)
                >= 40
            &&& near && edit_distance(text::first_word(fc), tc) <= 1 ==> fuzzy_score(f, t) >= 39
        }),
{
    let field = crate::search::normalized(f);
    let term = crate::search::normalized(t);
    lemma_typo_score_values(field, term);
    if term.len() > 0 && text::contains_seq(field, seq![' '] + term) {
        let i = choose|i: int| text::occurs_at(field, seq![' '] + term, i);
        assert(field.len() > 0);
    }
    if term.len() > 0 && text::contains_seq(field, term) {
        let i = choose|i: int| text::occurs_at(field, term, i);
        assert(field.len() > 0);
    }
}

} // verus!
