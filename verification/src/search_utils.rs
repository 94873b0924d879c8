//! Helpers that the searches share.
use crate::pattern;
use crate::text;
use vstd::prelude::*;

verus! {

// ---------------------------------------------------------------------------
// Previews
// ---------------------------------------------------------------------------

/// Where the body of a note starts for a preview: behind the line on which the front matter
/// ends, or at the start if no front matter is opened and closed.
pub open spec fn preview_start(content: Seq<char>) -> int {
    if seq!['-', '-', '-'].is_prefix_of(content) {
        match text::find(content.skip(3), seq!['\n', '-', '-', '-']) {
            Some(i) => {
                let end = i + 7;
                match text::find(content.skip(end as int), seq!['\n']) {
                    Some(n) => (end + n + 1) as int,
                    None => end as int,
                }
            },
            None => 0,
        }
    } else {
        0
    }
}

/// At most the first `n` characters of a text.
pub open spec fn at_most(s: Seq<char>, n: nat) -> Seq<char> {
    if s.len() <= n {
        s
    } else {
        s.take(n as int)
    }
}

/// Strips YAML front matter and returns a preview of the body of at most `max_chars` characters.
pub fn body_preview(content: &str, max_chars: usize) -> (r: String)
    ensures
        r@ == at_most(text::trim_start(content@.skip(preview_start(content@))), max_chars as nat),
{
    let chars = text::to_chars(content);
    let dashes: [char; 3] = ['-', '-', '-'];
    let closing: [char; 4] = ['\n', '-', '-', '-'];
    let feed: [char; 1] = ['\n'];
    assert(dashes@ =~= seq!['-', '-', '-']);
    assert(closing@ =~= seq!['\n', '-', '-', '-']);
    assert(feed@ =~= seq!['\n']);
    let n = chars.len();
    let mut start: usize = 0;
    if text::has_prefix(&chars, &dashes) {
        let rest = vstd::slice::slice_subrange(&chars, 3, n);
        assert(rest@ =~= chars@.skip(3));
        if let Some(i) = text::find_in(rest, &closing) {
            proof {
                text::lemma_find(rest@, closing@);
            }
            let end: usize = i + 7;
            let behind = vstd::slice::slice_subrange(&chars, end, n);
            assert(behind@ =~= chars@.skip(end as int));
            start = match text::find_in(behind, &feed) {
                Some(k) => {
                    proof {
                        text::lemma_find(behind@, feed@);
                    }
                    end + k + 1
                },
                None => end,
            };
        }
    }
    let tail = vstd::slice::slice_subrange(&chars, start, n);
    assert(tail@ =~= content@.skip(start as int));
    let body = text::trimmed_start(tail);
    if body.len() <= max_chars {
        text::from_chars(body)
    } else {
        text::from_chars(vstd::slice::slice_subrange(body, 0, max_chars))
    }
}

/// A preview is a part of the note, and never longer than asked for.
pub proof fn law_preview_is_part_of_the_note(content: Seq<char>, max_chars: nat)
    ensures
        0 <= preview_start(content) <= content.len(),
        ({
            let body = text::trim_start(content.skip(preview_start(content)));
            let preview = at_most(body, max_chars);
            &&& preview.len() <= max_chars
            &&& preview.is_prefix_of(body)
            &&& body.is_suffix_of(content)
        }),
{
    let start = preview_start(content);
    if seq!['-', '-', '-'].is_prefix_of(content) {
        text::lemma_find(content.skip(3), seq!['\n', '-', '-', '-']);
        if let Some(i) = text::find(content.skip(3), seq!['\n', '-', '-', '-']) {
            text::lemma_find(content.skip(i as int + 7), seq!['\n']);
        }
    }
    let tail = content.skip(start);
    text::lemma_trim_start(tail);
    let body = text::trim_start(tail);
    assert(body.is_suffix_of(content)) by {
        assert(body =~= content.subrange(content.len() - body.len(), content.len() as int));
    }
    assert(at_most(body, max_chars).is_prefix_of(body)) by {
        let p = at_most(body, max_chars);
        assert(p =~= body.subrange(0, p.len() as int));
    }
}

// ---------------------------------------------------------------------------
// Query words
// ---------------------------------------------------------------------------

/// Words as patterns.
pub open spec fn escaped_words(ws: Seq<Seq<char>>) -> Seq<Seq<char>> {
    ws.map_values(|w: Seq<char>| pattern::escaped(w))
}

/// The pattern that matches any word of a query, letter case aside; empty for a query without
/// words.
pub open spec fn any_word(query: Seq<char>) -> Seq<char> {
    text::join(escaped_words(text::words(query)), "|"@)
}

/// Builds a regular expression that matches any word of a query, letter case aside.
///
/// Returns nothing for a query without words.
pub fn compile_query_word_regex(query: &str) -> (r: Option<regex::Regex>)
    ensures
        ({
            let all = "(?i)"@ + any_word(query@);
            match r {
                Some(re) => any_word(query@).len() > 0 && pattern::regex_error(all) is None
                    && pattern::regex_pattern(re) == all,
                None => any_word(query@).len() == 0 || pattern::regex_error(all) is Some,
            }
        }),
{
    let chars = text::to_chars(query);
    let words = text::split_words(&chars);
    let ghost all = text::texts(words@);
    let mut parts: Vec<String> = Vec::new();
    assert(text::strings(parts@) =~= escaped_words(all.take(0)));
    let mut k: usize = 0;
    while k < words.len()
        invariant
            k <= words.len(),
            all == text::texts(words@),
            text::strings(parts@) == escaped_words(all.take(k as int)),
        decreases words.len() - k,
    {
        let ghost before = parts@;
        assert(all[k as int] == words@[k as int]@);
        let word = text::from_chars(&words[k]);
        parts.push(pattern::escape(&word));
        k = k + 1;
        assert(text::strings(parts@) =~= text::strings(before).push(
            pattern::escaped(all[k - 1]),
        ));
        assert(escaped_words(all.take(k as int)) =~= escaped_words(all.take(k - 1)).push(
            pattern::escaped(all[k - 1]),
        ));
    }
    assert(all.take(k as int) =~= all);
    let joined = text::join_strings(&parts, "|");
    let joined_chars = text::to_chars(&joined);
    if joined_chars.len() == 0 {
        return None;
    }
    let mut full = "(?i)".to_owned();
    full.push_str(&joined);
    match pattern::compile(&full) {
        Ok(re) => Some(re),
        Err(_) => None,
    }
}

// ---------------------------------------------------------------------------
// Ranking
// ---------------------------------------------------------------------------

/// Whether an item comes before another one: its key is greater, or it is the earlier one of
/// two with the same key.
pub open spec fn ranks_before(keys: Seq<i64>, a: int, b: int) -> bool {
    keys[a] > keys[b] || (keys[a] == keys[b] && a < b)
}

/// Whether a ranking lists items of the first `k` in their order.
pub open spec fn in_rank_order(keys: Seq<i64>, ranking: Seq<usize>, k: nat) -> bool {
    &&& forall|i: int| 0 <= i < ranking.len() ==> #[trigger] ranking[i] < k
    &&& forall|i: int, j: int|
        0 <= i < j < ranking.len() ==> ranks_before(
            keys,
            #[trigger] ranking[i] as int,
            #[trigger] ranking[j] as int,
        )
}

/// Whether every item of the first `k` is in a ranking, or comes behind all of it.
pub open spec fn leaves_out_only_lower(keys: Seq<i64>, ranking: Seq<usize>, k: nat) -> bool {
    forall|a: int|
        0 <= a < k ==> ranking.contains(#[trigger] (a as usize)) || forall|i: int|
            0 <= i < ranking.len() ==> ranks_before(keys, #[trigger] ranking[i] as int, a)
}

/// Ranks items by their keys, the greatest first, and keeps the first `top_k`. Items with the
/// same key stay in their order.
pub fn top_ranked(keys: &Vec<i64>, top_k: usize) -> (r: Vec<usize>)
    ensures
        r@.len() == if top_k <= keys@.len() {
            top_k as nat
        } else {
            keys@.len()
        },
        in_rank_order(keys@, r@, keys@.len()),
        leaves_out_only_lower(keys@, r@, keys@.len()),
{
    let mut r: Vec<usize> = Vec::new();
    let mut k: usize = 0;
    while k < keys.len()
        invariant
            k <= keys.len(),
            r@.len() == if top_k <= k {
                top_k as nat
            } else {
                k as nat
            },
            in_rank_order(keys@, r@, k as nat),
            leaves_out_only_lower(keys@, r@, k as nat),
            k <= top_k ==> forall|a: int| 0 <= a < k ==> r@.contains(#[trigger] (a as usize)),
        decreases keys.len() - k,
    {
        let mut at: usize = r.len();
        while at > 0 && keys[r[at - 1]] < keys[k]
            invariant
                at <= r.len(),
                k < keys.len(),
                in_rank_order(keys@, r@, k as nat),
                forall|j: int| at <= j < r.len() ==> keys@[#[trigger] r@[j] as int] < keys@[k as int],
            decreases at,
        {
            at = at - 1;
        }
        let ghost before = r@;
        assert forall|j: int| 0 <= j < at implies keys@[#[trigger] before[j] as int]
            >= keys@[k as int] by {
            if j < at - 1 {
                assert(ranks_before(keys@, before[j] as int, before[at - 1] as int));
            }
        }
        r.insert(at, k);
        let ghost full = r@;
        assert(full =~= before.insert(at as int, k));
        assert(in_rank_order(keys@, full, (k + 1) as nat)) by {
            assert forall|i: int, j: int| 0 <= i < j < full.len() implies ranks_before(
                keys@,
                #[trigger] full[i] as int,
                #[trigger] full[j] as int,
            ) by {
                if i < at {
                    assert(full[i] == before[i]);
                    if j > at {
                        assert(full[j] == before[j - 1]);
                    }
                } else if i == at {
                    assert(full[j] == before[j - 1]);
                } else {
                    assert(full[i] == before[i - 1]);
                    assert(full[j] == before[j - 1]);
                }
            }
            assert forall|i: int| 0 <= i < full.len() implies #[trigger] full[i] < k + 1 by {
                if i < at {
                    assert(full[i] == before[i]);
                } else if i > at {
                    assert(full[i] == before[i - 1]);
                }
            }
        }
        if r.len() > top_k {
            let _ = r.pop();
        }
        let ghost after = r@;
        assert forall|a: int| 0 <= a < k + 1 implies after.contains(#[trigger] (a as usize))
            || forall|i: int|
            0 <= i < after.len() ==> ranks_before(keys@, #[trigger] after[i] as int, a) by {
            assert(full[at as int] == k);
            if full.contains(a as usize) {
                let h = choose|h: int| 0 <= h < full.len() && full[h] == a as usize;
                if h < after.len() {
                    assert(after[h] == a as usize);
                } else {
                    assert forall|i: int| 0 <= i < after.len() implies ranks_before(
                        keys@,
                        #[trigger] after[i] as int,
                        a,
                    ) by {
                        assert(after[i] == full[i]);
                        assert(ranks_before(keys@, full[i] as int, full[h] as int));
                    }
                }
            } else {
                if a == k {
                    assert(full.contains(full[at as int]));
                }
                if before.contains(a as usize) {
                    let h = choose|h: int| 0 <= h < before.len() && before[h] == a as usize;
                    if h < at {
                        assert(full[h] == a as usize);
                    } else {
                        assert(full[h + 1] == a as usize);
                    }
                }
                assert(!before.contains(a as usize));
                assert forall|i: int| 0 <= i < after.len() implies ranks_before(
                    keys@,
                    #[trigger] after[i] as int,
                    a,
                ) by {
                    assert(after[i] == full[i]);
                    if i < at {
                        assert(full[i] == before[i]);
                    } else if i > at {
                        assert(full[i] == before[i - 1]);
                    } else if at < before.len() {
                        assert(ranks_before(keys@, before[at as int] as int, a));
                    }
                }
            }
        }
        proof {
            if k < top_k {
                assert(after =~= full);
                assert forall|a: int| 0 <= a < k + 1 implies after.contains(
                    #[trigger] (a as usize),
                ) by {
                    assert(full[at as int] == k);
                    if a < k {
                        assert(before.contains(a as usize));
                        let h = choose|h: int| 0 <= h < before.len() && before[h] == a as usize;
                        if h < at {
                            assert(full[h] == a as usize);
                        } else {
                            assert(full[h + 1] == a as usize);
                        }
                    }
                }
            }
        }
        k = k + 1;
    }
    r
}

/// The preview of a note starts behind its front matter: behind the line that the first `---` at
/// the start of a line begins, if the note starts with `---`. All other notes are shown from
/// their start.
pub proof fn law_preview_skips_front_matter(
    a: Seq<char>,
    b: Seq<char>,
    rest: Seq<char>,
    content: Seq<char>,
)
    requires
        !a.contains('\n'),
        !b.contains('\n'),
    ensures
        preview_start(seq!['-', '-', '-'] + a + seq!['\n', '-', '-', '-'] + b + seq!['\n'] + rest)
            == a.len() + b.len() + 8,
        preview_start(seq!['-', '-', '-'] + a + seq!['\n', '-', '-', '-'] + b) == a.len() + 7,
        preview_start(seq!['-', '-', '-'] + a) == 0,
        content.len() < 3 || content[0] != '-' || content[1] != '-' || content[2] != '-'
            ==> preview_start(content) == 0,
{
    let d = seq!['-', '-', '-'];
    let m = seq!['\n', '-', '-', '-'];
    let nl = seq!['\n'];
    let x = d + a + m + b + nl + rest;
    let y = d + a + m + b;
    let z = d + a;
    text::lemma_found_behind(a, m, b + nl + rest);
    text::lemma_found_behind(a, m, b);
    text::lemma_found_behind(b, nl, rest);
    text::lemma_not_found(b, nl);
    text::lemma_not_found(a, m);
    assert(x.skip(3) =~= a + m + (b + nl + rest));
    assert(y.skip(3) =~= a + m + b);
    assert(z.skip(3) =~= a);
    let end = a.len() as int + 7;
    assert(x.skip(end) =~= b + nl + rest);
    assert(y.skip(end) =~= b);
    assert(x.take(3) =~= d);
    assert(y.take(3) =~= d);
    assert(z.take(3) =~= d);
}

/// The pattern for the words of a query is one alternative for each word, which has no other
/// match than the word as it is written.
pub proof fn law_words_are_searched_literally(query: Seq<char>, i: int)
    ensures
        ({
            let parts = escaped_words(text::words(query));
            &&& parts.len() == text::words(query).len()
            &&& any_word(query) == text::join(parts, seq!['|'])
            &&& 0 <= i < parts.len() ==> pattern::literal_of(parts[i]) == Some(
                text::words(query)[i],
            )
        }),
{
    reveal_strlit("|");
    assert("|"@ =~= seq!['|']);
    if 0 <= i < text::words(query).len() {
        pattern::law_escaped_text_is_literal(text::words(query)[i]);
    }
}

/// A ranking goes from higher keys to lower ones and keeps equal keys in their order; nothing that
/// it leaves out has a higher key than what it holds.
pub proof fn law_ranking(keys: Seq<i64>, ranking: Seq<usize>, i: int, j: int, a: int)
    requires
        in_rank_order(keys, ranking, keys.len()),
        leaves_out_only_lower(keys, ranking, keys.len()),
        keys.len() <= usize::MAX,
    ensures
        0 <= i < j < ranking.len() ==> keys[ranking[i] as int] >= keys[ranking[j] as int]
            && ranking[i] != ranking[j],
        0 <= i < j < ranking.len() && keys[ranking[i] as int] == keys[ranking[j] as int]
            ==> ranking[i] < ranking[j],
        0 <= a < keys.len() && !ranking.contains(a as usize) && 0 <= i < ranking.len()
            ==> keys[ranking[i] as int] >= keys[a],
{
    if 0 <= i < j < ranking.len() {
        assert(ranks_before(keys, ranking[i] as int, ranking[j] as int));
    }
    if 0 <= a < keys.len() && !ranking.contains(a as usize) && 0 <= i < ranking.len() {
        assert(ranks_before(keys, ranking[i] as int, a));
    }
}

} // verus!
