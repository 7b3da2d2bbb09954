//! Rendering of a channel's status lines into embed messages.
//!
//! Lines are gathered into one embed when they fit its description limit;
//! when they do not, over-long lines are dropped first, then the longest
//! lines are shed until the embed budget is met, and the rest is split
//! half-by-count over two embeds; whenever lines were dropped, the message
//! content carries a notice with the dropped line and character counts.

use crate::constants::{DESCRIPTION_MAX_LENGTH, EMBED_MAX_LENGTH, INFO_COLOR};
use vstd::prelude::*;

verus! {

/// Each line with the newline that will join it to the next.
pub open spec fn newlined(lines: Seq<Seq<char>>) -> Seq<Seq<char>> {
    lines.map_values(|l: Seq<char>| l.push('\n'))
}

/// A newlined line short enough for one embed description.
pub open spec fn fits_one_embed(l: Seq<char>) -> bool {
    l.len() <= DESCRIPTION_MAX_LENGTH + 1
}

/// Inserts a line into a length-sorted run, after every line of the same
/// length.
pub open spec fn insert_by_len(v: Seq<char>, s: Seq<Seq<char>>) -> Seq<Seq<char>>
    decreases s.len(),
{
    if s.len() == 0 {
        seq![v]
    } else if v.len() < s[0].len() {
        seq![v] + s
    } else {
        seq![s[0]] + insert_by_len(v, s.drop_first())
    }
}

/// Sorts lines by length, stably: lines of equal length keep their order.
pub open spec fn sort_by_len(s: Seq<Seq<char>>) -> Seq<Seq<char>>
    decreases s.len(),
{
    if s.len() == 0 {
        s
    } else {
        insert_by_len(s.last(), sort_by_len(s.drop_last()))
    }
}

/// The total length of a run of lines.
pub open spec fn total_len(s: Seq<Seq<char>>) -> int
    decreases s.len(),
{
    if s.len() == 0 {
        0
    } else {
        total_len(s.drop_last()) + s.last().len()
    }
}

/// How many of the (length-sorted) lines fit the budget: the longest suffix
/// is shed line by line until the total fits.
pub open spec fn kept_count(s: Seq<Seq<char>>, budget: int) -> int
    decreases s.len(),
{
    if total_len(s) <= budget {
        s.len() as int
    } else if s.len() == 0 {
        0
    } else {
        kept_count(s.drop_last(), budget)
    }
}

/// The lines joined into one text.
pub open spec fn concat_all(s: Seq<Seq<char>>) -> Seq<char>
    decreases s.len(),
{
    if s.len() == 0 {
        Seq::empty()
    } else {
        concat_all(s.drop_last()) + s.last()
    }
}

/// A joined text with its trailing newline removed.
pub open spec fn chop(s: Seq<char>) -> Seq<char> {
    if s.len() > 0 {
        s.drop_last()
    } else {
        s
    }
}

/// Walks the kept lines in order, placing up to `half` of them into the
/// first description as long as it stays within one embed; the rest join the
/// second. Result: the two descriptions and how much of `half` was unused.
pub open spec fn split_lines(s: Seq<Seq<char>>, half: int, first: Seq<char>, second: Seq<char>) -> (
    Seq<char>,
    Seq<char>,
    int,
)
    decreases s.len(),
{
    if s.len() == 0 {
        (first, second, half)
    } else {
        let l = s[0];
        if half > 0 && first.len() + l.len() <= DESCRIPTION_MAX_LENGTH + 1 {
            split_lines(s.drop_first(), half - 1, first + l, second)
        } else {
            split_lines(s.drop_first(), half, first, second + l)
        }
    }
}

/// The character budget one message's embed text may use beside its title.
pub open spec fn embed_budget(title: Option<Seq<char>>) -> int {
    match title {
        Some(t) => EMBED_MAX_LENGTH - t.len() + 2,
        None => EMBED_MAX_LENGTH - 1 + 2,
    }
}

/// One embed of a rendered message.
pub struct Embed {
    pub title: Option<String>,
    pub description: String,
    pub color: u32,
}

/// A rendered status message: optional plain content above one or two
/// embeds.
pub struct RenderedMessage {
    pub content: Option<String>,
    pub embeds: Vec<Embed>,
}

} // verus!

use crate::text::{dec_seq, u128_to_string, u64_to_string};
use vstd::prelude::*;

verus! {

/// The character views of a run of lines.
pub open spec fn views(s: Seq<String>) -> Seq<Seq<char>> {
    s.map_values(|l: String| l@)
}

/// The filter the renderer applies before sorting.
pub open spec fn embed_line_pred() -> spec_fn(Seq<char>) -> bool {
    |l: Seq<char>| fits_one_embed(l)
}

fn insert_sorted(v: String, s: Vec<String>) -> (r: Vec<String>)
    ensures
        views(r@) == insert_by_len(v@, views(s@)),
    decreases s@.len(),
{
    let ghost sv = s@;
    if s.len() == 0 {
        let mut r = s;
        r.push(v);
        proof {
            assert(views(r@) =~= insert_by_len(r@[0]@, views(sv)));
        }
        r
    } else {
        let vlen = v.as_str().unicode_len();
        let hlen = s[0].as_str().unicode_len();
        if vlen < hlen {
            let mut r = s;
            r.insert(0, v);
            proof {
                assert(views(r@) =~= insert_by_len(r@[0]@, views(sv)));
            }
            r
        } else {
            let mut s = s;
            let h = s.remove(0);
            proof {
                assert(s@ =~= sv.drop_first());
                assert(views(s@) =~= views(sv).drop_first());
            }
            let rest = insert_sorted(v, s);
            let mut r = rest;
            r.insert(0, h);
            proof {
                assert(views(r@) =~= seq![h@] + insert_by_len(v@, views(sv).drop_first()));
                assert(views(sv)[0] == h@);
                assert(views(r@) =~= insert_by_len(v@, views(sv)));
            }
            r
        }
    }
}

fn sort_lines(lines: Vec<String>) -> (r: Vec<String>)
    ensures
        views(r@) == sort_by_len(views(lines@)),
    decreases lines@.len(),
{
    let ghost lv = lines@;
    if lines.len() == 0 {
        proof {
            assert(views(lv) =~= sort_by_len(views(lv)));
        }
        lines
    } else {
        let mut lines = lines;
        let last = lines.pop().unwrap();
        proof {
            assert(lines@ =~= lv.drop_last());
            assert(views(lines@) =~= views(lv).drop_last());
            assert(last@ == views(lv).last());
        }
        let sorted = sort_lines(lines);
        let r = insert_sorted(last, sorted);
        proof {
            assert(views(r@) == insert_by_len(views(lv).last(), sort_by_len(views(lv).drop_last())));
        }
        r
    }
}

proof fn lemma_total_len_nonneg(s: Seq<Seq<char>>)
    ensures
        total_len(s) >= 0,
    decreases s.len(),
{
    if s.len() > 0 {
        lemma_total_len_nonneg(s.drop_last());
    }
}

proof fn lemma_total_len_add(a: Seq<Seq<char>>, b: Seq<Seq<char>>)
    ensures
        total_len(a + b) == total_len(a) + total_len(b),
    decreases b.len(),
{
    if b.len() == 0 {
        assert(a + b =~= a);
    } else {
        assert((a + b).drop_last() =~= a + b.drop_last());
        assert((a + b).last() == b.last());
        lemma_total_len_add(a, b.drop_last());
    }
}

proof fn lemma_insert_by_len_props(v: Seq<char>, s: Seq<Seq<char>>)
    ensures
        insert_by_len(v, s).len() == s.len() + 1,
        total_len(insert_by_len(v, s)) == total_len(s) + v.len(),
        insert_by_len(v, s).to_multiset() == s.to_multiset().insert(v),
    decreases s.len(),
{
    broadcast use vstd::seq_lib::group_to_multiset_ensures;
    assert(seq![v].len() == 1);
    assert(seq![v].last() == v);
    assert(seq![v].drop_last() =~= Seq::<Seq<char>>::empty());
    assert(total_len(Seq::<Seq<char>>::empty()) == 0);
    assert(total_len(seq![v]) == total_len(seq![v].drop_last()) + seq![v].last().len());
    assert(total_len(seq![v]) == v.len());
    assert(seq![v] =~= Seq::<Seq<char>>::empty().push(v));
    assert(Seq::<Seq<char>>::empty().to_multiset() =~= vstd::multiset::Multiset::<Seq<char>>::empty());
    assert(seq![v].to_multiset() =~= vstd::multiset::Multiset::<Seq<char>>::empty().insert(v));
    if s.len() == 0 {
        assert(insert_by_len(v, s) =~= seq![v]);
        assert(s.to_multiset() =~= vstd::multiset::Multiset::<Seq<char>>::empty());
    } else if v.len() < s[0].len() {
        let r = seq![v] + s;
        lemma_total_len_add(seq![v], s);
        vstd::seq_lib::lemma_multiset_commutative(seq![v], s);
        assert(r.to_multiset() =~= s.to_multiset().insert(v));
    } else {
        let rest = insert_by_len(v, s.drop_first());
        lemma_insert_by_len_props(v, s.drop_first());
        let r = seq![s[0]] + rest;
        assert(seq![s[0]].len() == 1);
        assert(seq![s[0]].last() == s[0]);
        assert(seq![s[0]].drop_last() =~= Seq::<Seq<char>>::empty());
        assert(total_len(seq![s[0]]) == total_len(seq![s[0]].drop_last()) + seq![s[0]].last().len());
        assert(total_len(seq![s[0]]) == s[0].len());
        lemma_total_len_add(seq![s[0]], rest);
        assert(s =~= seq![s[0]] + s.drop_first());
        lemma_total_len_add(seq![s[0]], s.drop_first());
        assert(seq![s[0]] =~= Seq::<Seq<char>>::empty().push(s[0]));
        assert(seq![s[0]].to_multiset() =~= vstd::multiset::Multiset::<Seq<char>>::empty().insert(s[0]));
        vstd::seq_lib::lemma_multiset_commutative(seq![s[0]], rest);
        vstd::seq_lib::lemma_multiset_commutative(seq![s[0]], s.drop_first());
        assert(r.to_multiset() =~= s.to_multiset().insert(v));
    }
}

/// Law: sorting by length only reorders the lines: the count of every line,
/// the number of lines and the total length are unchanged.
pub proof fn lemma_sort_by_len_permutes(s: Seq<Seq<char>>)
    ensures
        sort_by_len(s).len() == s.len(),
        total_len(sort_by_len(s)) == total_len(s),
        sort_by_len(s).to_multiset() == s.to_multiset(),
    decreases s.len(),
{
    broadcast use vstd::seq_lib::group_to_multiset_ensures;
    if s.len() > 0 {
        lemma_sort_by_len_permutes(s.drop_last());
        lemma_insert_by_len_props(s.last(), sort_by_len(s.drop_last()));
        assert(s =~= s.drop_last().push(s.last()));
        assert(s.to_multiset() =~= s.drop_last().to_multiset().insert(s.last()));
    }
}

/// The length-sorted newlined lines the renderer works from.
pub open spec fn sorted_lines(lv: Seq<Seq<char>>) -> Seq<Seq<char>> {
    sort_by_len(newlined(lv).filter(embed_line_pred()))
}

/// The lines that survive the embed budget.
pub open spec fn budget_kept(lv: Seq<Seq<char>>, tv: Option<Seq<char>>) -> Seq<Seq<char>> {
    sorted_lines(lv).subrange(0, kept_count(sorted_lines(lv), embed_budget(tv)))
}

/// How many lines the renderer drops in all: over-long lines before sorting
/// and the longest lines shed to meet the embed budget.
pub open spec fn dropped_line_count(lv: Seq<Seq<char>>, tv: Option<Seq<char>>) -> int {
    lv.len() - budget_kept(lv, tv).len()
}

/// How many characters the dropped lines carried, their joining newlines
/// included.
pub open spec fn dropped_char_count(lv: Seq<Seq<char>>, tv: Option<Seq<char>>) -> int {
    total_len(newlined(lv)) - total_len(budget_kept(lv, tv))
}

/// The kept text overflows a single embed description and must be split.
pub open spec fn needs_split(lv: Seq<Seq<char>>, tv: Option<Seq<char>>) -> bool {
    total_len(budget_kept(lv, tv)) > DESCRIPTION_MAX_LENGTH + 1
}

/// The embeds of a rendered message follow the drop-sort-shed-split pipeline
/// for these lines and this title.
pub open spec fn embeds_spec(embeds: Seq<Embed>, lv: Seq<Seq<char>>, tv: Option<Seq<char>>) -> bool {
    let kept = budget_kept(lv, tv);
    if !needs_split(lv, tv) {
        &&& embeds.len() == 1
        &&& embeds[0].description@ == chop(concat_all(kept))
        &&& (match tv {
            Some(t) => embeds[0].title matches Some(et) && et@ == t,
            None => embeds[0].title is None,
        })
        &&& embeds[0].color == INFO_COLOR
    } else {
        let half = (kept.len() + 1) as int / 2;
        let split = split_lines(kept, half, Seq::empty(), Seq::empty());
        let first = if split.2 > 0 {
            split.1
        } else {
            split.0
        };
        let second = if split.2 > 0 {
            split.0
        } else {
            split.1
        };
        &&& embeds.len() == 2
        &&& embeds[0].description@ == chop(first)
        &&& embeds[1].description@ == chop(second)
        &&& (match tv {
            Some(t) => embeds[0].title matches Some(et) && et@ == t,
            None => embeds[0].title is None,
        })
        &&& embeds[1].title is None
        &&& embeds[0].color == INFO_COLOR
        &&& embeds[1].color == INFO_COLOR
    }
}

/// The title's character view.
pub open spec fn title_view(title: Option<String>) -> Option<Seq<char>> {
    match title {
        Some(t) => Some(t@),
        None => None,
    }
}

fn chop_string(s: String) -> (r: String)
    ensures
        r@ == chop(s@),
{
    let n = s.as_str().unicode_len();
    if n == 0 {
        s
    } else {
        let sub = s.as_str().substring_char(0, n - 1);
        proof {
            assert(sub@ =~= chop(s@));
        }
        String::from_str(sub)
    }
}

fn render_embeds(lines: Vec<String>, title: Option<String>) -> (r: (Vec<Embed>, usize, u128))
    requires
        title matches Some(t) ==> t@.len() <= EMBED_MAX_LENGTH,
    ensures
        embeds_spec(r.0@, views(lines@), title_view(title)),
        r.1 == dropped_line_count(views(lines@), title_view(title)),
        r.2 == dropped_char_count(views(lines@), title_view(title)),
{
    let ghost lv = views(lines@);
    let ghost tv = title_view(title);

    // Append the joining newline to each line; lines too long for any embed
    // are dropped here.
    let n = lines.len();
    let mut filtered: Vec<String> = Vec::new();
    let mut lines_dropped: usize = 0;
    let mut overlong_chars: u128 = 0;
    for i in 0..n
        invariant
            n == lines@.len(),
            lv == views(lines@),
            views(filtered@) == newlined(lv.subrange(0, i as int)).filter(embed_line_pred()),
            lines_dropped == i - views(filtered@).len(),
            overlong_chars == total_len(newlined(lv.subrange(0, i as int))) - total_len(
                views(filtered@),
            ),
            total_len(newlined(lv.subrange(0, i as int))) <= i as int * (u64::MAX as int),
            total_len(views(filtered@)) >= 0,
    {
        let mut w = lines[i].clone();
        w.append("\n");
        proof {
            reveal_strlit("\n");
            assert(w@ == lv[i as int].push('\n'));
        }
        let wl = w.as_str().unicode_len();
        let ghost pre = views(filtered@);
        if wl <= DESCRIPTION_MAX_LENGTH + 1 {
            filtered.push(w);
        } else {
            lines_dropped = lines_dropped + 1;
            proof {
                assert(wl as int <= u64::MAX as int);
                assert((i + 1) as int * (u64::MAX as int) >= i as int * (u64::MAX as int) + (
                u64::MAX as int)) by (nonlinear_arith);
            }
            overlong_chars = overlong_chars + (wl as u128);
        }
        proof {
            let prevnl = newlined(lv.subrange(0, i as int));
            let nextnl = newlined(lv.subrange(0, i + 1));
            assert(nextnl.drop_last() =~= prevnl);
            assert(nextnl.last() == lv[i as int].push('\n'));
            assert(total_len(nextnl) == total_len(prevnl) + wl as int);
            assert(wl as int <= u64::MAX as int);
            assert((i + 1) as int * (u64::MAX as int) >= i as int * (u64::MAX as int) + (
            u64::MAX as int)) by (nonlinear_arith);
            reveal(Seq::filter);
            if wl <= DESCRIPTION_MAX_LENGTH + 1 {
                assert(views(filtered@) =~= pre.push(lv[i as int].push('\n')));
                assert(views(filtered@).drop_last() =~= pre);
                assert(total_len(views(filtered@)) == total_len(pre) + wl as int);
                assert(views(filtered@) =~= nextnl.filter(embed_line_pred()));
            } else {
                assert(views(filtered@) =~= nextnl.filter(embed_line_pred()));
            }
        }
    }
    proof {
        assert(lv.subrange(0, n as int) =~= lv);
        newlined(lv).lemma_filter_len(embed_line_pred());
        assert(newlined(lv).len() == lv.len());
        assert(n as int * (u64::MAX as int) <= (u64::MAX as int) * (u64::MAX as int))
            by (nonlinear_arith)
            requires
                n as int <= u64::MAX as int,
        ;
    }
    let ghost full_chars = total_len(newlined(lv));

    // Sort ascending by length, stably.
    let mut sorted = sort_lines(filtered);
    let ghost fullsorted = views(sorted@);
    proof {
        lemma_sort_by_len_permutes(newlined(lv).filter(embed_line_pred()));
    }

    // Shed the longest lines until the embed budget is met.
    let title_len: usize = match &title {
        Some(t) => t.as_str().unicode_len(),
        None => 1,
    };
    let budget: usize = EMBED_MAX_LENGTH + 2 - title_len;
    proof {
        assert(budget as int == embed_budget(tv));
    }
    let sn = sorted.len();
    let mut total: u128 = 0;
    for i in 0..sn
        invariant
            sn == sorted@.len(),
            fullsorted == views(sorted@),
            total == total_len(fullsorted.subrange(0, i as int)),
            total <= i as u128 * (u64::MAX as u128),
    {
        let ll = sorted[i].as_str().unicode_len();
        proof {
            assert(fullsorted.subrange(0, i + 1).drop_last() =~= fullsorted.subrange(0, i as int));
            assert(fullsorted.subrange(0, i + 1).last() == fullsorted[i as int]);
            assert(ll as u128 <= u64::MAX as u128) by {
                assert(sorted@[i as int]@.len() <= usize::MAX);
            }
            assert((i + 1) as u128 * (u64::MAX as u128) >= i as u128 * (u64::MAX as u128) + (
            u64::MAX as u128)) by (nonlinear_arith);
            assert(i as u128 * (u64::MAX as u128) <= (u64::MAX as u128) * (u64::MAX as u128))
                by (nonlinear_arith)
                requires
                    i as u128 <= u64::MAX as u128,
            ;
        }
        total = total + (ll as u128);
    }
    proof {
        assert(fullsorted.subrange(0, sn as int) =~= fullsorted);
        assert(sn as u128 * (u64::MAX as u128) <= (u64::MAX as u128) * (u64::MAX as u128))
            by (nonlinear_arith)
            requires
                sn as u128 <= u64::MAX as u128,
        ;
    }
    let mut chars_dropped: u128 = overlong_chars;
    let ghost fulltotal = total_len(fullsorted);
    while total > (budget as u128)
        invariant
            n == lv.len(),
            fullsorted == sort_by_len(newlined(lv).filter(embed_line_pred())),
            sorted@.len() <= fullsorted.len(),
            views(sorted@) == fullsorted.subrange(0, sorted@.len() as int),
            total == total_len(views(sorted@)),
            lines_dropped == lv.len() - sorted@.len(),
            chars_dropped == full_chars - total,
            full_chars == total_len(newlined(lv)),
            full_chars <= (u64::MAX as int) * (u64::MAX as int),
            fulltotal == total_len(fullsorted),
            total <= fulltotal <= full_chars,
            kept_count(fullsorted, budget as int) == kept_count(views(sorted@), budget as int),
            budget as int == embed_budget(tv),
        decreases sorted@.len(),
    {
        proof {
            lemma_total_len_nonneg(views(sorted@));
            assert(sorted@.len() > 0) by {
                if sorted@.len() == 0 {
                    assert(views(sorted@).len() == 0);
                    assert(total_len(views(sorted@)) == 0);
                }
            }
        }
        let ghost prev = views(sorted@);
        let popped = sorted.pop().unwrap();
        let pl = popped.as_str().unicode_len();
        proof {
            assert(views(sorted@) =~= prev.drop_last());
            assert(prev.last() == popped@);
            assert(views(sorted@) =~= fullsorted.subrange(0, sorted@.len() as int));
            lemma_total_len_nonneg(views(sorted@));
            assert(total_len(prev) == total_len(prev.drop_last()) + prev.last().len());
        }
        total = total - (pl as u128);
        proof {
            assert(chars_dropped as int + pl as int <= full_chars);
        }
        chars_dropped = chars_dropped + (pl as u128);
        lines_dropped = lines_dropped + 1;
    }
    proof {
        assert(kept_count(views(sorted@), budget as int) == views(sorted@).len());
        assert(views(sorted@) =~= budget_kept(lv, tv));
        lemma_total_len_nonneg(views(sorted@));
        assert(lines_dropped == dropped_line_count(lv, tv));
        assert(chars_dropped == dropped_char_count(lv, tv));
    }
    let ghost kept = budget_kept(lv, tv);

    if total <= (DESCRIPTION_MAX_LENGTH + 1) as u128 {
        // Everything fits one embed.
        let kn = sorted.len();
        let mut description = String::new();
        proof {
            assert(kept.subrange(0, 0) =~= Seq::<Seq<char>>::empty());
        }
        for i in 0..kn
            invariant
                kn == sorted@.len(),
                kept == views(sorted@),
                description@ == concat_all(kept.subrange(0, i as int)),
        {
            description.append(sorted[i].as_str());
            proof {
                assert(kept.subrange(0, i + 1).drop_last() =~= kept.subrange(0, i as int));
                assert(kept.subrange(0, i + 1).last() == kept[i as int]);
            }
        }
        proof {
            assert(kept.subrange(0, kn as int) =~= kept);
        }
        let description = chop_string(description);
        let mut embeds: Vec<Embed> = Vec::new();
        embeds.push(Embed { title, description, color: INFO_COLOR });
        (embeds, lines_dropped, chars_dropped)
    } else {
        // Split half-by-count over two embeds.
        let kn = sorted.len();
        let half0: usize = kn / 2 + kn % 2;
        proof {
            assert(half0 as int == (kept.len() + 1) as int / 2);
        }
        let mut half = half0;
        let mut first = String::new();
        let mut second = String::new();
        let mut fcount: usize = 0;
        proof {
            assert(kept.subrange(0, kn as int) =~= kept);
        }
        for i in 0..kn
            invariant
                kn == sorted@.len(),
                kept == views(sorted@),
                fcount == first@.len(),
                fcount <= DESCRIPTION_MAX_LENGTH + 1,
                half <= half0,
                split_lines(kept, half0 as int, Seq::empty(), Seq::empty()) == split_lines(
                    kept.subrange(i as int, kn as int),
                    half as int,
                    first@,
                    second@,
                ),
        {
            let ll = sorted[i].as_str().unicode_len();
            let ghost suffix = kept.subrange(i as int, kn as int);
            proof {
                assert(suffix.len() > 0);
                assert(suffix[0] == kept[i as int]);
                assert(suffix.drop_first() =~= kept.subrange(i + 1, kn as int));
            }
            if half > 0 && ll <= DESCRIPTION_MAX_LENGTH + 1 - fcount {
                first.append(sorted[i].as_str());
                fcount = fcount + ll;
                half = half - 1;
            } else {
                second.append(sorted[i].as_str());
            }
        }
        proof {
            assert(kept.subrange(kn as int, kn as int) =~= Seq::<Seq<char>>::empty());
        }
        let swap = half > 0;
        let (fd, sd) = if swap {
            (second, first)
        } else {
            (first, second)
        };
        let fd = chop_string(fd);
        let sd = chop_string(sd);
        let mut embeds: Vec<Embed> = Vec::new();
        embeds.push(Embed { title, description: fd, color: INFO_COLOR });
        embeds.push(Embed { title: None, description: sd, color: INFO_COLOR });
        (embeds, lines_dropped, chars_dropped)
    }
}

} // verus!

verus! {

/// The notice appended when over-long lines had to be dropped.
pub open spec fn notice_seq(lines_dropped: int, chars_dropped: int) -> Seq<char> {
    "This output has been truncated by "@ + dec_seq(lines_dropped) + " lines ("@ + dec_seq(
        chars_dropped,
    ) + " characters) because of Discord limits."@
}

fn truncation_notice(lines_dropped: usize, chars_dropped: u128) -> (r: String)
    ensures
        r@ == notice_seq(lines_dropped as int, chars_dropped as int),
{
    let mut r = String::new();
    r.append("This output has been truncated by ");
    let l = u64_to_string(lines_dropped as u64);
    r.append(l.as_str());
    r.append(" lines (");
    let c = u128_to_string(chars_dropped);
    r.append(c.as_str());
    r.append(" characters) because of Discord limits.");
    proof {
        assert(r@ =~= notice_seq(lines_dropped as int, chars_dropped as int));
    }
    r
}

/// The content of a rendered channel message: the given text, with the
/// truncation notice under it whenever any line was dropped.
pub open spec fn message_content_seq(content: Seq<char>, lv: Seq<Seq<char>>, tv: Option<
    Seq<char>,
>) -> Seq<char> {
    if dropped_line_count(lv, tv) > 0 {
        content + "\n"@ + notice_seq(dropped_line_count(lv, tv), dropped_char_count(lv, tv))
    } else {
        content
    }
}

/// Renders a status message to send: content above one or two embeds.
pub fn render_lines_message(content: &str, lines: Vec<String>, title: Option<String>) -> (r:
    RenderedMessage)
    requires
        title matches Some(t) ==> t@.len() <= EMBED_MAX_LENGTH,
    ensures
        embeds_spec(r.embeds@, views(lines@), title_view(title)),
        r.content matches Some(c) && c@ == message_content_seq(
            content@,
            views(lines@),
            title_view(title),
        ),
{
    let ghost lv = views(lines@);
    let ghost tv = title_view(title);
    let (embeds, lines_dropped, chars_dropped) = render_embeds(lines, title);
    let mut text = String::new();
    text.append(content);
    if lines_dropped > 0 {
        proof {
            reveal_strlit("\n");
        }
        text.append("\n");
        let notice = truncation_notice(lines_dropped, chars_dropped);
        text.append(notice.as_str());
        proof {
            assert(text@ =~= message_content_seq(content@, lv, tv));
        }
    } else {
        proof {
            assert(text@ =~= message_content_seq(content@, lv, tv));
        }
    }
    RenderedMessage { content: Some(text), embeds }
}

/// Renders the in-place edit of a status message; same shape as a fresh
/// message.
pub fn render_lines_edit_message(content: &str, lines: Vec<String>, title: Option<String>) -> (r:
    RenderedMessage)
    requires
        title matches Some(t) ==> t@.len() <= EMBED_MAX_LENGTH,
    ensures
        embeds_spec(r.embeds@, views(lines@), title_view(title)),
        r.content matches Some(c) && c@ == message_content_seq(
            content@,
            views(lines@),
            title_view(title),
        ),
{
    render_lines_message(content, lines, title)
}

/// Renders an ephemeral reply: one or two embeds, with the truncation notice
/// as the only content when lines were dropped and the output had to be
/// split.
pub fn render_lines_reply(lines: Vec<String>, title: Option<String>) -> (r: RenderedMessage)
    requires
        title matches Some(t) ==> t@.len() <= EMBED_MAX_LENGTH,
    ensures
        embeds_spec(r.embeds@, views(lines@), title_view(title)),
        ({
            let lv = views(lines@);
            let tv = title_view(title);
            if dropped_line_count(lv, tv) > 0 {
                r.content matches Some(c) && c@ == notice_seq(
                    dropped_line_count(lv, tv),
                    dropped_char_count(lv, tv),
                )
            } else {
                r.content is None
            }
        }),
{
    let (embeds, lines_dropped, chars_dropped) = render_embeds(lines, title);
    if lines_dropped > 0 {
        let notice = truncation_notice(lines_dropped, chars_dropped);
        RenderedMessage { content: Some(notice), embeds }
    } else {
        RenderedMessage { content: None, embeds }
    }
}

} // verus!

use crate::constants::{FAILURE_COLOR, SUCCESS_COLOR};

verus! {

/// A success-coloured embed around a text.
pub fn success_embed(content: String) -> (r: Embed)
    ensures
        r.title is None,
        r.description == content,
        r.color == SUCCESS_COLOR,
{
    Embed { title: None, description: content, color: SUCCESS_COLOR }
}

/// A failure-coloured embed around a text.
pub fn failure_embed(content: String) -> (r: Embed)
    ensures
        r.title is None,
        r.description == content,
        r.color == FAILURE_COLOR,
{
    Embed { title: None, description: content, color: FAILURE_COLOR }
}

/// An information-coloured embed around a text.
pub fn info_embed(content: String) -> (r: Embed)
    ensures
        r.title is None,
        r.description == content,
        r.color == INFO_COLOR,
{
    Embed { title: None, description: content, color: INFO_COLOR }
}

/// An ephemeral reply carrying one success embed.
pub fn success_message(content: String) -> (r: RenderedMessage)
    ensures
        r.content is None,
        r.embeds@.len() == 1,
        r.embeds@[0].description == content,
        r.embeds@[0].color == SUCCESS_COLOR,
{
    let mut embeds: Vec<Embed> = Vec::new();
    embeds.push(success_embed(content));
    RenderedMessage { content: None, embeds }
}

/// An ephemeral reply carrying one failure embed.
pub fn failure_message(content: String) -> (r: RenderedMessage)
    ensures
        r.content is None,
        r.embeds@.len() == 1,
        r.embeds@[0].description == content,
        r.embeds@[0].color == FAILURE_COLOR,
{
    let mut embeds: Vec<Embed> = Vec::new();
    embeds.push(failure_embed(content));
    RenderedMessage { content: None, embeds }
}

/// An ephemeral reply carrying one information embed.
pub fn info_message(content: String) -> (r: RenderedMessage)
    ensures
        r.content is None,
        r.embeds@.len() == 1,
        r.embeds@[0].description == content,
        r.embeds@[0].color == INFO_COLOR,
{
    let mut embeds: Vec<Embed> = Vec::new();
    embeds.push(info_embed(content));
    RenderedMessage { content: None, embeds }
}

} // verus!
