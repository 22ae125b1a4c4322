//! The weekend movie report over an XMLTV listing: the channels picked by
//! callsign, the movies they show grouped by title, and, for each title
//! with a showing on a weekend, how often and where it is shown.

use crate::sorted_map::{
    SortedMap, as_map, collect, count_of, counts_fit, group, has_key, index_of, insert_spec,
    last_value, lemma_collect, lemma_count_of_bound, lemma_count_of_take, lemma_filter_sorted,
    lemma_group, lemma_index_of_unique, lemma_last_value_member, lemma_tally, lemma_tally_len,
    lemma_tally_sum, lemma_value_listed, lemma_values_with_key_members, pairs_have_key,
    sorted_keys, sum_counts, tally, values_with_key,
};
use crate::text::str_equal;
use crate::xmltv::{
    Channel, ChannelView, Program, ProgramView, Tv, Weekday, in_clock_range, lemma_sunday_midnight_is_weekend,
    possible_weekend_flag, weekday_of_day, weekend_starts,
};
use vstd::prelude::*;

verus! {

/// The values of a sequence of channels.
pub open spec fn channel_views(chs: Seq<Channel>) -> Seq<ChannelView> {
    chs.map_values(|c: Channel| c@)
}

/// The values of a sequence of programmes.
pub open spec fn program_views(ps: Seq<Program>) -> Seq<ProgramView> {
    ps.map_values(|p: Program| p@)
}

/// The values of a sequence of string slices.
pub open spec fn str_views(ss: Seq<&str>) -> Seq<Seq<char>> {
    ss.map_values(|s: &str| s@)
}

/// Each channel's id with its position.
pub open spec fn channel_pairs(chs: Seq<ChannelView>) -> Seq<(Seq<char>, usize)> {
    Seq::new(chs.len(), |i: int| (chs[i].id, i as usize))
}

/// The id and position of each of the first `n` channels whose callsign is
/// one of `callsigns`, in order.
pub open spec fn selected_pairs(chs: Seq<ChannelView>, callsigns: Seq<Seq<char>>, n: int) -> Seq<(Seq<char>, usize)>
    decreases n,
{
    if n <= 0 {
        Seq::empty()
    } else {
        let before = selected_pairs(chs, callsigns, n - 1);
        if callsigns.contains(chs[n - 1].callsign()) {
            before.push((chs[n - 1].id, (n - 1) as usize))
        } else {
            before
        }
    }
}

/// The channels whose callsign is one of `callsigns`: each id to the
/// position of the last such channel with that id, in id order.
pub open spec fn selected_channels(chs: Seq<ChannelView>, callsigns: Seq<Seq<char>>) -> Seq<(Seq<char>, usize)> {
    collect(selected_pairs(chs, callsigns, chs.len() as int))
}

/// Every channel: each id to the position of the last channel with that id,
/// in id order.
pub open spec fn channel_index_spec(chs: Seq<ChannelView>) -> Seq<(Seq<char>, usize)> {
    collect(channel_pairs(chs))
}

/// Indexes the channels by id: each id to the position of the last channel
/// with that id.
pub fn channel_index(channels: &[Channel]) -> (m: SortedMap<usize>)
    ensures
        sorted_keys(m@),
        m@ == channel_index_spec(channel_views(channels@)),
{
    let ghost chs = channel_views(channels@);
    let ghost pairs = channel_pairs(chs);
    let mut m: SortedMap<usize> = SortedMap::new();
    let n = channels.len();
    let mut i: usize = 0;
    proof {
        assert(pairs.take(0) =~= Seq::<(Seq<char>, usize)>::empty());
    }
    while i < n
        invariant
            n == channels@.len(),
            chs == channel_views(channels@),
            pairs == channel_pairs(chs),
            i <= n,
            sorted_keys(m@),
            m@ == collect(pairs.take(i as int)),
        decreases n - i,
    {
        proof {
            assert(pairs.take(i + 1).drop_last() =~= pairs.take(i as int));
        }
        m.insert(channels[i].id.clone(), i);
        i = i + 1;
    }
    proof {
        assert(pairs.take(n as int) =~= pairs);
    }
    m
}

/// Whether `s` is one of `list`.
fn one_of(s: &str, list: &[&str]) -> (b: bool)
    ensures
        b == str_views(list@).contains(s@),
{
    let n = list.len();
    let mut i: usize = 0;
    while i < n
        invariant
            n == list@.len(),
            i <= n,
            forall|j: int| 0 <= j < i ==> list@[j]@ != s@,
        decreases n - i,
    {
        if str_equal(list[i], s) {
            assert(str_views(list@)[i as int] == s@);
            return true;
        }
        i = i + 1;
    }
    proof {
        if str_views(list@).contains(s@) {
            let j = choose|j: int| 0 <= j < str_views(list@).len() && str_views(list@)[j] == s@;
            assert(list@[j]@ == s@);
        }
    }
    false
}

/// The channels whose callsign is one of `callsigns`, by id: each id to the
/// position of the last such channel with that id.
pub fn select_channels(channels: &[Channel], callsigns: &[&str]) -> (m: SortedMap<usize>)
    ensures
        sorted_keys(m@),
        m@ == selected_channels(channel_views(channels@), str_views(callsigns@)),
{
    let ghost chs = channel_views(channels@);
    let ghost calls = str_views(callsigns@);
    let mut m: SortedMap<usize> = SortedMap::new();
    let n = channels.len();
    let mut i: usize = 0;
    while i < n
        invariant
            n == channels@.len(),
            chs == channel_views(channels@),
            calls == str_views(callsigns@),
            i <= n,
            sorted_keys(m@),
            m@ == collect(selected_pairs(chs, calls, i as int)),
        decreases n - i,
    {
        let c = &channels[i];
        if one_of(c.callsign(), callsigns) {
            proof {
                let p = selected_pairs(chs, calls, i + 1);
                assert(p.drop_last() =~= selected_pairs(chs, calls, i as int));
            }
            m.insert(c.id.clone(), i);
        }
        i = i + 1;
    }
    m
}

/// The category of movies.
pub open spec fn movie_category() -> Seq<char> {
    seq!['M', 'o', 'v', 'i', 'e']
}

/// A movie on one of the selected channels.
pub open spec fn is_selected_movie(p: ProgramView, selected: Seq<(Seq<char>, usize)>) -> bool {
    has_key(selected, p.channel) && p.category == movie_category()
}

/// The title and position of each of the first `n` programmes that is a
/// movie on a selected channel, in order.
pub open spec fn movie_pairs(ps: Seq<ProgramView>, selected: Seq<(Seq<char>, usize)>, n: int) -> Seq<(Seq<char>, usize)>
    decreases n,
{
    if n <= 0 {
        Seq::empty()
    } else {
        let before = movie_pairs(ps, selected, n - 1);
        if is_selected_movie(ps[n - 1], selected) {
            before.push((ps[n - 1].title, (n - 1) as usize))
        } else {
            before
        }
    }
}

/// The movies on the selected channels, by title: each title to the
/// positions of its showings, in order; titles in order.
pub open spec fn movie_groups(ps: Seq<ProgramView>, selected: Seq<(Seq<char>, usize)>) -> Seq<(Seq<char>, Seq<usize>)> {
    group(movie_pairs(ps, selected, ps.len() as int))
}

/// Entries with lists of positions, the lists taken as sequences.
pub open spec fn index_lists(s: Seq<(Seq<char>, Vec<usize>)>) -> Seq<(Seq<char>, Seq<usize>)> {
    s.map_values(|e: (Seq<char>, Vec<usize>)| (e.0, e.1@))
}

proof fn lemma_index_lists_keys(s: Seq<(Seq<char>, Vec<usize>)>)
    ensures
        sorted_keys(s) <==> sorted_keys(index_lists(s)),
        forall|k: Seq<char>| #[trigger] has_key(s, k) <==> has_key(index_lists(s), k),
{
    let t = index_lists(s);
    assert forall|k: Seq<char>| #[trigger] has_key(s, k) <==> has_key(t, k) by {
        if has_key(s, k) {
            let i = index_of(s, k);
            assert(t[i].0 == k);
        }
        if has_key(t, k) {
            let i = index_of(t, k);
            assert(s[i].0 == k);
        }
    };
    if sorted_keys(t) {
        assert forall|i: int, j: int| 0 <= i < j < s.len() implies crate::text::str_lt(#[trigger] s[i].0, #[trigger] s[j].0) by {
            assert(crate::text::str_lt(t[i].0, t[j].0));
        };
    }
    if sorted_keys(s) {
        assert forall|i: int, j: int| 0 <= i < j < t.len() implies crate::text::str_lt(#[trigger] t[i].0, #[trigger] t[j].0) by {
            assert(crate::text::str_lt(s[i].0, s[j].0));
        };
    }
}

/// Groups the movies on the selected channels by title: each title to the
/// positions of its showings, in order.
pub fn group_movies(programs: &[Program], selected: &SortedMap<usize>) -> (m: SortedMap<Vec<usize>>)
    ensures
        sorted_keys(m@),
        index_lists(m@) == movie_groups(program_views(programs@), selected@),
{
    let ghost ps = program_views(programs@);
    let mut m: SortedMap<Vec<usize>> = SortedMap::new();
    let n = programs.len();
    let mut i: usize = 0;
    proof {
        assert(index_lists(m@) =~= Seq::<(Seq<char>, Seq<usize>)>::empty());
    }
    while i < n
        invariant
            n == programs@.len(),
            ps == program_views(programs@),
            i <= n,
            sorted_keys(m@),
            index_lists(m@) == group(movie_pairs(ps, selected@, i as int)),
        decreases n - i,
    {
        let p = &programs[i];
        let movie = "Movie";
        proof {
            reveal_strlit("Movie");
            assert(movie@ =~= movie_category());
        }
        let on_selected = selected.find(p.channel.as_str()).is_some();
        if on_selected && str_equal(p.category.as_str(), movie) {
            let ghost before = m@;
            let ghost pairs = movie_pairs(ps, selected@, i + 1);
            proof {
                assert(ps[i as int] == p@);
                assert(pairs.drop_last() =~= movie_pairs(ps, selected@, i as int));
                assert(is_selected_movie(ps[i as int], selected@));
                assert(pairs.last() == (p.title@, i));
                lemma_index_lists_keys(before);
            }
            match m.find(p.title.as_str()) {
                Some(j) => {
                    let mut list = m.replace_value_at(j, Vec::new());
                    list.push(i);
                    m.replace_value_at(j, list);
                    proof {
                        let t = index_lists(before);
                        assert(t[j as int].0 == p.title@);
                        lemma_index_of_unique(t, p.title@, j as int);
                        assert(as_map(t).contains_key(p.title@));
                        assert(index_lists(m@) =~= t.update(j as int, (p.title@, t[j as int].1.push(i))));
                    }
                },
                None => {
                    let ghost t = index_lists(before);
                    let list = vec![i];
                    m.insert(p.title.clone(), list);
                    proof {
                        assert(!has_key(t, p.title@));
                        assert(!as_map(t).contains_key(p.title@));
                        lemma_index_lists_insert(before, p.title@, list);
                        assert(list@ =~= seq![i]);
                    }
                },
            }
            proof {
                lemma_index_lists_keys(m@);
            }
        } else {
            proof {
                assert(ps[i as int] == p@);
                assert(movie_pairs(ps, selected@, i + 1) =~= movie_pairs(ps, selected@, i as int));
            }
        }
        i = i + 1;
    }
    m
}

/// The channels that showings are on.
pub open spec fn showing_channels(ps: Seq<ProgramView>, idx: Seq<usize>) -> Seq<Seq<char>> {
    idx.map_values(|i: usize| ps[i as int].channel)
}

/// Counts the showings per channel: each channel to the number of the
/// showings on it, channels in order; nothing where a count would not fit
/// a `u16`.
pub fn count_by_channel(programs: &[Program], showings: &[usize]) -> (r: Option<SortedMap<u16>>)
    requires
        forall|j: int| 0 <= j < showings@.len() ==> #[trigger] showings@[j] < programs@.len(),
    ensures
        r is Some <==> counts_fit(showing_channels(program_views(programs@), showings@)),
        r matches Some(m) ==> sorted_keys(m@) && m@ == tally(showing_channels(program_views(programs@), showings@)),
{
    let ghost ps = program_views(programs@);
    let ghost keys = showing_channels(ps, showings@);
    let mut m: SortedMap<u16> = SortedMap::new();
    let n = showings.len();
    let mut i: usize = 0;
    proof {
        assert(keys.take(0) =~= Seq::<Seq<char>>::empty());
    }
    while i < n
        invariant
            n == showings@.len(),
            ps == program_views(programs@),
            keys == showing_channels(ps, showings@),
            forall|j: int| 0 <= j < showings@.len() ==> #[trigger] showings@[j] < programs@.len(),
            i <= n,
            counts_fit(keys.take(i as int)),
            sorted_keys(m@),
            m@ == tally(keys.take(i as int)),
        decreases n - i,
    {
        let ghost prefix = keys.take(i as int);
        let ghost next = keys.take(i + 1);
        let p = &programs[showings[i]];
        proof {
            assert(next.drop_last() =~= prefix);
            assert(next.last() == p@.channel);
            lemma_tally(prefix);
            assert forall|k: Seq<char>| k != p@.channel implies #[trigger] count_of(next, k) == count_of(prefix, k) by {};
        }
        match m.find(p.channel.as_str()) {
            Some(j) => {
                let c = *m.value_at(j);
                proof {
                    lemma_index_of_unique(m@, p@.channel, j as int);
                    assert(has_key(m@, p@.channel));
                    assert(as_map(m@).contains_key(p@.channel));
                    assert(prefix.contains(p@.channel));
                    assert(as_map(m@)[p@.channel] == m@[j as int].1);
                    assert(c == count_of(prefix, p@.channel));
                    assert(count_of(next, p@.channel) == count_of(prefix, p@.channel) + 1);
                }
                if c == u16::MAX {
                    proof {
                        lemma_count_of_take(keys, p@.channel, i + 1);
                    }
                    return None;
                }
                m.replace_value_at(j, c + 1);
            },
            None => {
                proof {
                    assert(!as_map(m@).contains_key(p@.channel));
                    assert(!prefix.contains(p@.channel));
                    crate::sorted_map::lemma_count_of_absent(prefix, p@.channel);
                }
                m.insert(p.channel.clone(), 1);
            },
        }
        i = i + 1;
    }
    proof {
        assert(keys.take(n as int) =~= keys);
    }
    Some(m)
}

/// The entry at `j` has the greatest count, and comes last among the
/// entries with that count (as `max_by_key` picks).
pub open spec fn is_top(counts: Seq<(Seq<char>, u16)>, j: int) -> bool {
    &&& 0 <= j < counts.len()
    &&& forall|x: int| 0 <= x < counts.len() ==> #[trigger] counts[x].1 <= counts[j].1
    &&& forall|x: int| j < x < counts.len() ==> #[trigger] counts[x].1 < counts[j].1
}

/// At most one entry is the top one.
pub proof fn lemma_top_unique(counts: Seq<(Seq<char>, u16)>, a: int, b: int)
    requires
        is_top(counts, a),
        is_top(counts, b),
    ensures
        a == b,
{
    if a < b {
        assert(counts[b].1 < counts[a].1);
        assert(counts[b].1 >= counts[a].1);
    } else if b < a {
        assert(counts[a].1 < counts[b].1);
        assert(counts[a].1 >= counts[b].1);
    }
}

/// The position of the entry with the greatest count, the last one among
/// those with that count.
pub fn top_entry(counts: &SortedMap<u16>) -> (j: usize)
    requires
        counts@.len() > 0,
    ensures
        is_top(counts@, j as int),
{
    let n = counts.len();
    let mut best: usize = 0;
    let mut x: usize = 1;
    while x < n
        invariant
            n == counts@.len(),
            1 <= x <= n,
            best < x,
            forall|y: int| 0 <= y < x ==> #[trigger] counts@[y].1 <= counts@[best as int].1,
            forall|y: int| best < y < x ==> #[trigger] counts@[y].1 < counts@[best as int].1,
        decreases n - x,
    {
        if *counts.value_at(x) >= *counts.value_at(best) {
            best = x;
        }
        x = x + 1;
    }
    best
}

/// Some showing is on a weekend.
pub open spec fn has_weekend_showing(idx: Seq<usize>, weekend: Seq<bool>) -> bool {
    exists|j: int| 0 <= j < idx.len() && #[trigger] weekend[idx[j] as int]
}

/// The predicate "has a showing on a weekend", on groups.
pub open spec fn weekend_group(weekend: Seq<bool>) -> spec_fn((Seq<char>, Seq<usize>)) -> bool {
    |e: (Seq<char>, Seq<usize>)| has_weekend_showing(e.1, weekend)
}

/// The movies on the selected channels with a showing on a weekend, by
/// title, titles in order.
pub open spec fn weekend_groups(
    chs: Seq<ChannelView>,
    ps: Seq<ProgramView>,
    callsigns: Seq<Seq<char>>,
    weekend: Seq<bool>,
) -> Seq<(Seq<char>, Seq<usize>)> {
    movie_groups(ps, selected_channels(chs, callsigns)).filter(weekend_group(weekend))
}

/// One line of the report: a title, how many showings it has, on how many
/// channels, and the callsign of the channel that shows it most, with the
/// number of showings there.
#[derive(Debug)]
pub struct MovieRow {
    pub title: String,
    pub showings: i32,
    pub channels: usize,
    pub top_callsign: String,
    pub top_showings: u16,
}

/// The value of a `MovieRow`.
pub struct MovieRowView {
    pub title: Seq<char>,
    pub showings: int,
    pub channels: int,
    pub top_callsign: Seq<char>,
    pub top_showings: u16,
}

impl View for MovieRow {
    type V = MovieRowView;

    open spec fn view(&self) -> MovieRowView {
        MovieRowView {
            title: self.title@,
            showings: self.showings as int,
            channels: self.channels as int,
            top_callsign: self.top_callsign@,
            top_showings: self.top_showings,
        }
    }
}

/// The position of the top entry.
pub open spec fn top_index(counts: Seq<(Seq<char>, u16)>) -> int {
    choose|j: int| is_top(counts, j)
}

/// The report line of a title and the positions of its showings: the
/// showings are counted per channel, and the top channel is named by the
/// callsign of the last channel with its id.
pub open spec fn movie_row(chs: Seq<ChannelView>, ps: Seq<ProgramView>, e: (Seq<char>, Seq<usize>)) -> MovieRowView {
    let counts = tally(showing_channels(ps, e.1));
    let top = counts[top_index(counts)];
    MovieRowView {
        title: e.0,
        showings: e.1.len() as int,
        channels: counts.len() as int,
        top_callsign: chs[as_map(channel_index_spec(chs))[top.0] as int].callsign(),
        top_showings: top.1,
    }
}

/// The report: a line for each movie on a selected channel with a showing
/// on a weekend, titles in order.
pub open spec fn weekend_rows(
    chs: Seq<ChannelView>,
    ps: Seq<ProgramView>,
    callsigns: Seq<Seq<char>>,
    weekend: Seq<bool>,
) -> Seq<MovieRowView> {
    weekend_groups(chs, ps, callsigns, weekend).map_values(|e: (Seq<char>, Seq<usize>)| movie_row(chs, ps, e))
}

/// The counts of a title's line fit their types: fewer than 2^31
/// showings, and no more than `u16::MAX` on any one channel.
pub open spec fn group_fits(ps: Seq<ProgramView>, e: (Seq<char>, Seq<usize>)) -> bool {
    &&& e.1.len() <= i32::MAX
    &&& counts_fit(showing_channels(ps, e.1))
}

/// Every group of `groups` fits.
pub open spec fn all_fit(ps: Seq<ProgramView>, groups: Seq<(Seq<char>, Seq<usize>)>) -> bool {
    forall|j: int| 0 <= j < groups.len() ==> group_fits(ps, #[trigger] groups[j])
}

/// The counts of the report fit their types, for each title with a showing
/// on a weekend.
pub open spec fn report_fits(
    chs: Seq<ChannelView>,
    ps: Seq<ProgramView>,
    callsigns: Seq<Seq<char>>,
    weekend: Seq<bool>,
) -> bool {
    all_fit(ps, weekend_groups(chs, ps, callsigns, weekend))
}

/// What the pairs of the selected channels are made of.
proof fn lemma_selected_pairs(chs: Seq<ChannelView>, callsigns: Seq<Seq<char>>, n: int)
    requires
        n <= chs.len() <= usize::MAX,
    ensures
        forall|x: int| 0 <= x < selected_pairs(chs, callsigns, n).len() ==> {
            let pair = #[trigger] selected_pairs(chs, callsigns, n)[x];
            &&& 0 <= pair.1 < n
            &&& pair.0 == chs[pair.1 as int].id
        },
    decreases n,
{
    if n > 0 {
        lemma_selected_pairs(chs, callsigns, n - 1);
        let before = selected_pairs(chs, callsigns, n - 1);
        let now = selected_pairs(chs, callsigns, n);
        assert forall|x: int| 0 <= x < now.len() implies {
            let pair = #[trigger] now[x];
            &&& 0 <= pair.1 < n
            &&& pair.0 == chs[pair.1 as int].id
        } by {
            if x < before.len() {
                assert(now[x] == before[x]);
            }
        };
    }
}

/// What the pairs of the movies are made of.
proof fn lemma_movie_pairs(ps: Seq<ProgramView>, selected: Seq<(Seq<char>, usize)>, n: int)
    requires
        n <= ps.len() <= usize::MAX,
    ensures
        forall|x: int| 0 <= x < movie_pairs(ps, selected, n).len() ==> {
            let pair = #[trigger] movie_pairs(ps, selected, n)[x];
            &&& 0 <= pair.1 < n
            &&& pair.0 == ps[pair.1 as int].title
            &&& is_selected_movie(ps[pair.1 as int], selected)
        },
    decreases n,
{
    if n > 0 {
        lemma_movie_pairs(ps, selected, n - 1);
        let before = movie_pairs(ps, selected, n - 1);
        let now = movie_pairs(ps, selected, n);
        assert forall|x: int| 0 <= x < now.len() implies {
            let pair = #[trigger] now[x];
            &&& 0 <= pair.1 < n
            &&& pair.0 == ps[pair.1 as int].title
            &&& is_selected_movie(ps[pair.1 as int], selected)
        } by {
            if x < before.len() {
                assert(now[x] == before[x]);
            }
        };
    }
}

/// The showings listed under a title are movies on selected channels, and
/// each is a programme of the listing.
proof fn lemma_group_showings(chs: Seq<ChannelView>, ps: Seq<ProgramView>, callsigns: Seq<Seq<char>>, e: (Seq<char>, Seq<usize>))
    requires
        ps.len() <= usize::MAX,
        movie_groups(ps, selected_channels(chs, callsigns)).contains(e),
    ensures
        forall|j: int| 0 <= j < e.1.len() ==> {
            &&& #[trigger] e.1[j] < ps.len()
            &&& is_selected_movie(ps[e.1[j] as int], selected_channels(chs, callsigns))
        },
{
    let sel = selected_channels(chs, callsigns);
    let pairs = movie_pairs(ps, sel, ps.len() as int);
    let g = movie_groups(ps, sel);
    lemma_group(pairs);
    lemma_movie_pairs(ps, sel, ps.len() as int);
    let gi = choose|gi: int| 0 <= gi < g.len() && g[gi] == e;
    assert(has_key(g, e.0));
    lemma_index_of_unique(g, e.0, gi);
    assert(as_map(g).contains_key(e.0));
    assert(as_map(g)[e.0] == g[gi].1);
    assert(pairs_have_key(pairs, e.0));
    assert(e.1 == values_with_key(pairs, e.0));
    lemma_values_with_key_members(pairs, e.0);
    assert forall|j: int| 0 <= j < e.1.len() implies {
        &&& #[trigger] e.1[j] < ps.len()
        &&& is_selected_movie(ps[e.1[j] as int], sel)
    } by {
        let x = choose|x: int| 0 <= x < pairs.len() && #[trigger] pairs[x] == (e.0, values_with_key(pairs, e.0)[j]);
        assert(pairs[x].1 == e.1[j]);
    };
}

/// A channel that a movie on a selected channel is on has an entry in the
/// index of all channels, which gives the position of a channel with that id.
proof fn lemma_channel_indexed(chs: Seq<ChannelView>, callsigns: Seq<Seq<char>>, c: Seq<char>)
    requires
        chs.len() <= usize::MAX,
        has_key(selected_channels(chs, callsigns), c),
    ensures
        as_map(channel_index_spec(chs)).contains_key(c),
        0 <= as_map(channel_index_spec(chs))[c] < chs.len(),
        chs[as_map(channel_index_spec(chs))[c] as int].id == c,
{
    let sp = selected_pairs(chs, callsigns, chs.len() as int);
    let cp = channel_pairs(chs);
    lemma_collect(sp);
    lemma_collect(cp);
    lemma_selected_pairs(chs, callsigns, chs.len() as int);
    assert(as_map(collect(sp)).contains_key(c));
    let x = choose|x: int| 0 <= x < sp.len() && #[trigger] sp[x].0 == c;
    let i = sp[x].1 as int;
    assert(cp[i].0 == c);
    assert(pairs_have_key(cp, c));
    lemma_last_value_member(cp, c);
    let y = choose|y: int| 0 <= y < cp.len() && #[trigger] cp[y] == (c, last_value(cp, c));
    assert(cp[y].1 == y);
}

/// Whether some of the showings is on a weekend.
fn any_on_weekend(showings: &[usize], weekend: &[bool]) -> (b: bool)
    requires
        forall|j: int| 0 <= j < showings@.len() ==> #[trigger] showings@[j] < weekend@.len(),
    ensures
        b == has_weekend_showing(showings@, weekend@),
{
    let n = showings.len();
    let mut x: usize = 0;
    while x < n
        invariant
            n == showings@.len(),
            x <= n,
            forall|j: int| 0 <= j < showings@.len() ==> #[trigger] showings@[j] < weekend@.len(),
            forall|j: int| 0 <= j < x ==> !#[trigger] weekend@[showings@[j] as int],
        decreases n - x,
    {
        if weekend[showings[x]] {
            return true;
        }
        x = x + 1;
    }
    false
}

/// The weekend movie report: for each movie on a channel whose callsign is
/// one of `callsigns` and with a showing on a weekend (`weekend` tells, for
/// each programme, whether it starts on one), in title order, the number of
/// its showings, the number of channels showing it, and the callsign of
/// the channel showing it most, with the number of showings there. Nothing
/// where a count does not fit its type.
pub fn weekend_movies(channels: &[Channel], programs: &[Program], callsigns: &[&str], weekend: &[bool]) -> (r: Option<Vec<MovieRow>>)
    requires
        weekend@.len() == programs@.len(),
    ensures
        r is Some <==> report_fits(channel_views(channels@), program_views(programs@), str_views(callsigns@), weekend@),
        r matches Some(rows) ==> rows@.map_values(|r: MovieRow| r@) == weekend_rows(
            channel_views(channels@),
            program_views(programs@),
            str_views(callsigns@),
            weekend@,
        ),
{
    let ghost chs = channel_views(channels@);
    let ghost ps = program_views(programs@);
    let ghost calls = str_views(callsigns@);
    let all = channel_index(channels);
    let selected = select_channels(channels, callsigns);
    let groups = group_movies(programs, &selected);
    let ghost gs = index_lists(groups@);
    let ghost pred = weekend_group(weekend@);
    let mut rows: Vec<MovieRow> = Vec::new();
    let n = groups.len();
    let mut j: usize = 0;
    let np = programs.len();
    let nc = channels.len();
    proof {
        assert(ps.len() == np);
        assert(chs.len() == nc);
        reveal(Seq::filter);
        assert(gs.take(0).filter(pred) =~= Seq::<(Seq<char>, Seq<usize>)>::empty());
        assert(rows@.map_values(|r: MovieRow| r@) =~= Seq::<MovieRowView>::empty());
    }
    while j < n
        invariant
            n == groups@.len(),
            gs == index_lists(groups@),
            gs == movie_groups(ps, selected_channels(chs, calls)),
            chs == channel_views(channels@),
            ps == program_views(programs@),
            calls == str_views(callsigns@),
            pred == weekend_group(weekend@),
            ps.len() <= usize::MAX,
            chs.len() <= usize::MAX,
            weekend@.len() == programs@.len(),
            sorted_keys(all@),
            all@ == channel_index_spec(chs),
            selected@ == selected_channels(chs, calls),
            j <= n,
            all_fit(ps, gs.take(j as int).filter(pred)),
            rows@.map_values(|r: MovieRow| r@) == gs.take(j as int).filter(pred).map_values(
                |e: (Seq<char>, Seq<usize>)| movie_row(chs, ps, e),
            ),
        decreases n - j,
    {
        let ghost before = rows@.map_values(|r: MovieRow| r@);
        let ghost e = gs[j as int];
        let ghost kept = gs.take(j as int).filter(pred);
        let showings = groups.value_at(j);
        proof {
            assert(showings@ == e.1);
            assert(gs.contains(e));
            lemma_group_showings(chs, ps, calls, e);
            assert(gs.take(j + 1) =~= gs.take(j as int).push(e));
            gs.take(j as int).lemma_filter_push(e, pred);
        }
        if any_on_weekend(showings.as_slice(), weekend) {
            let ghost groups_w = weekend_groups(chs, ps, calls, weekend@);
            proof {
                assert(pred(e));
                gs.lemma_filter_contains(pred, j as int);
                assert(gs.filter(pred) == groups_w);
            }
            if showings.len() > 2147483647 {
                proof {
                    let w = choose|w: int| 0 <= w < groups_w.len() && groups_w[w] == e;
                    assert(!group_fits(ps, groups_w[w]));
                }
                return None;
            }
            let counted = count_by_channel(programs, showings.as_slice());
            let counts = match counted {
                Some(c) => c,
                None => {
                    proof {
                        let w = choose|w: int| 0 <= w < groups_w.len() && groups_w[w] == e;
                        assert(!group_fits(ps, groups_w[w]));
                    }
                    return None;
                },
            };
            let ghost keys = showing_channels(ps, e.1);
            proof {
                lemma_tally(keys);
                let wj = choose|wj: int| 0 <= wj < e.1.len() && #[trigger] weekend@[e.1[wj] as int];
                assert(keys.contains(keys[0]));
                assert(as_map(counts@).contains_key(keys[0]));
            }
            let top = top_entry(&counts);
            let cid = counts.key_at(top);
            proof {
                lemma_top_unique(counts@, top as int, top_index(counts@));
                assert(has_key(counts@, cid@));
                assert(as_map(counts@).contains_key(cid@));
                assert(keys.contains(cid@));
                let x = choose|x: int| 0 <= x < keys.len() && keys[x] == cid@;
                assert(is_selected_movie(ps[e.1[x] as int], selected@));
                lemma_channel_indexed(chs, calls, cid@);
            }
            let ci = *all.get(cid).unwrap();
            let row = MovieRow {
                title: groups.key_at(j).to_owned(),
                showings: showings.len() as i32,
                channels: counts.len(),
                top_callsign: channels[ci].callsign().to_owned(),
                top_showings: *counts.value_at(top),
            };
            proof {
                assert(row@ == movie_row(chs, ps, e));
            }
            rows.push(row);
            proof {
                assert(rows@.map_values(|r: MovieRow| r@) =~= before.push(movie_row(chs, ps, e)));
                assert(group_fits(ps, e));
                assert(kept.push(e)[kept.len() as int] == e);
                assert forall|x: int| 0 <= x < kept.push(e).len() implies group_fits(ps, #[trigger] kept.push(e)[x]) by {
                    if x < kept.len() {
                        assert(kept.push(e)[x] == kept[x]);
                    }
                };
            }
        }
        j = j + 1;
    }
    proof {
        assert(gs.take(n as int) =~= gs);
    }
    Some(rows)
}

/// The weekend movie report of a listing, with the weekend told by the
/// start of each programme in the machine's local time zone. The result is
/// the report for weekend flags each of which is the weekend test of a day
/// of the week that the programme's start has in some time zone.
pub fn weekend_report(tv: &Tv, callsigns: &[&str]) -> (r: Option<Vec<MovieRow>>)
    ensures
        exists|weekend: Seq<bool>| {
            &&& weekend.len() == tv.programs@.len()
            &&& forall|i: int| 0 <= i < weekend.len() ==> possible_weekend_flag(tv.programs@[i].start, #[trigger] weekend[i])
            &&& (r is Some <==> report_fits(
                channel_views(tv.channels@),
                program_views(tv.programs@),
                str_views(callsigns@),
                weekend,
            ))
            &&& (r matches Some(rows) ==> rows@.map_values(|r: MovieRow| r@) == weekend_rows(
                channel_views(tv.channels@),
                program_views(tv.programs@),
                str_views(callsigns@),
                weekend,
            ))
        },
{
    let weekend = weekend_starts(tv.programs.as_slice());
    weekend_movies(tv.channels.as_slice(), tv.programs.as_slice(), callsigns, weekend.as_slice())
}

/// The callsigns of the channels the report looks at.
pub fn preferred_callsigns() -> (callsigns: Vec<&'static str>)
    ensures
        str_views(callsigns@) == seq![
            "AMC-PHD"@,
            "BBC"@,
            "BRAVO"@,
            "FX"@,
            "FXX-HD-W"@,
            "TBS"@,
            "TNT"@,
            "USAHD-P"@,
            "VH1"@,
        ],
{
    let callsigns = vec!["AMC-PHD", "BBC", "BRAVO", "FX", "FXX-HD-W", "TBS", "TNT", "USAHD-P", "VH1"];
    proof {
        assert(str_views(callsigns@) =~= seq![
            "AMC-PHD"@,
            "BBC"@,
            "BRAVO"@,
            "FX"@,
            "FXX-HD-W"@,
            "TBS"@,
            "TNT"@,
            "USAHD-P"@,
            "VH1"@,
        ]);
    }
    callsigns
}

/// In a line of the report whose counts fit, the showings per channel add
/// up to the showings in all; the top channel shows the title at least
/// once and no more often than it is shown in all, on no more channels than
/// it has showings, and no channel shows it more often than the top one.
pub proof fn lemma_row_counts(chs: Seq<ChannelView>, ps: Seq<ProgramView>, e: (Seq<char>, Seq<usize>))
    requires
        group_fits(ps, e),
        e.1.len() > 0,
    ensures
        1 <= movie_row(chs, ps, e).top_showings <= movie_row(chs, ps, e).showings,
        1 <= movie_row(chs, ps, e).channels <= movie_row(chs, ps, e).showings,
        forall|c: Seq<char>| showing_channels(ps, e.1).contains(c) ==> #[trigger] count_of(showing_channels(ps, e.1), c) <= movie_row(chs, ps, e).top_showings,
        sum_counts(tally(showing_channels(ps, e.1))) == movie_row(chs, ps, e).showings,
{
    lemma_tally_sum(showing_channels(ps, e.1));
    let keys = showing_channels(ps, e.1);
    let counts = tally(keys);
    lemma_tally(keys);
    lemma_tally_len(keys);
    assert(keys.contains(keys[0]));
    assert(as_map(counts).contains_key(keys[0]));
    assert(counts.len() > 0);
    let top = choose|j: int| is_top(counts, j);
    assert(exists|j: int| is_top(counts, j)) by {
        lemma_top_exists(counts);
    };
    assert(is_top(counts, top));
    assert(has_key(counts, counts[top].0));
    assert(as_map(counts).contains_key(counts[top].0));
    lemma_index_of_unique(counts, counts[top].0, top);
    lemma_count_of_bound(keys, counts[top].0);
    assert(as_map(counts)[counts[top].0] == counts[top].1);
    assert(counts_fit(keys));
    assert(keys.contains(counts[top].0));
    assert(counts[top].1 == count_of(keys, counts[top].0));
    assert(keys.len() == e.1.len());
    assert forall|c: Seq<char>| keys.contains(c) implies #[trigger] count_of(keys, c) <= counts[top].1 by {
        assert(as_map(counts).contains_key(c));
        let j = index_of(counts, c);
        assert(as_map(counts)[c] == counts[j].1);
        assert(count_of(keys, c) == as_map(counts)[c]);
        assert(counts[j].1 <= counts[top].1);
    };
}

/// Entries that are not empty have a top entry.
proof fn lemma_top_exists(counts: Seq<(Seq<char>, u16)>)
    requires
        counts.len() > 0,
    ensures
        exists|j: int| is_top(counts, j),
{
    lemma_top_search(counts, 1, 0);
}

/// Searching on from position `x` with the best so far at `best` finds the
/// top entry.
proof fn lemma_top_search(counts: Seq<(Seq<char>, u16)>, x: int, best: int)
    requires
        1 <= x <= counts.len(),
        0 <= best < x,
        forall|y: int| 0 <= y < x ==> #[trigger] counts[y].1 <= counts[best].1,
        forall|y: int| best < y < x ==> #[trigger] counts[y].1 < counts[best].1,
    ensures
        exists|j: int| is_top(counts, j),
    decreases counts.len() - x,
{
    if x == counts.len() {
        assert(is_top(counts, best));
    } else if counts[x].1 >= counts[best].1 {
        lemma_top_search(counts, x + 1, x);
    } else {
        lemma_top_search(counts, x + 1, best);
    }
}

/// A movie on a selected channel that starts at midnight UTC at the start
/// of a Sunday is in the report, whatever weekend flags the machine's time
/// zone gives.
pub proof fn lemma_sunday_midnight_movie_reported(
    chs: Seq<ChannelView>,
    ps: Seq<ProgramView>,
    callsigns: Seq<Seq<char>>,
    weekend: Seq<bool>,
    p: int,
)
    requires
        ps.len() <= usize::MAX,
        weekend.len() == ps.len(),
        forall|i: int| 0 <= i < weekend.len() ==> possible_weekend_flag(ps[i].start, #[trigger] weekend[i]),
        0 <= p < ps.len(),
        is_selected_movie(ps[p], selected_channels(chs, callsigns)),
        in_clock_range(ps[p].start),
        ps[p].start.seconds % 86400 == 0,
        weekday_of_day(ps[p].start.seconds / 86400) == Weekday::Sun,
    ensures
        titled_row(weekend_rows(chs, ps, callsigns, weekend), ps[p].title),
{
    assert(possible_weekend_flag(ps[p].start, weekend[p]));
    lemma_sunday_midnight_is_weekend(ps[p].start, weekend[p]);
    assert(shown_on_weekend(ps, selected_channels(chs, callsigns), weekend, ps[p].title));
    lemma_report_titles(chs, ps, callsigns, weekend);
}

/// A movie on a selected channel has its pair among the movie pairs.
proof fn lemma_movie_pair_present(ps: Seq<ProgramView>, selected: Seq<(Seq<char>, usize)>, n: int, p: int)
    requires
        0 <= p < n <= ps.len() <= usize::MAX,
        is_selected_movie(ps[p], selected),
    ensures
        exists|x: int| 0 <= x < movie_pairs(ps, selected, n).len() && #[trigger] movie_pairs(ps, selected, n)[x] == (ps[p].title, p as usize),
    decreases n,
{
    let now = movie_pairs(ps, selected, n);
    if p == n - 1 {
        assert(now[now.len() - 1] == (ps[p].title, p as usize));
    } else {
        lemma_movie_pair_present(ps, selected, n - 1, p);
        let before = movie_pairs(ps, selected, n - 1);
        let x = choose|x: int| 0 <= x < before.len() && #[trigger] before[x] == (ps[p].title, p as usize);
        assert(now[x] == before[x]);
    }
}

/// Some row has the title `t`.
pub open spec fn titled_row(rows: Seq<MovieRowView>, t: Seq<char>) -> bool {
    exists|i: int| 0 <= i < rows.len() && #[trigger] rows[i].title == t
}

/// Some movie with title `t` on a selected channel starts on a weekend.
pub open spec fn shown_on_weekend(ps: Seq<ProgramView>, selected: Seq<(Seq<char>, usize)>, weekend: Seq<bool>, t: Seq<char>) -> bool {
    exists|p: int| 0 <= p < ps.len() && is_selected_movie(#[trigger] ps[p], selected) && ps[p].title == t && weekend[p]
}

/// The report lists its titles in order, each once; and a title is in the
/// report exactly when some movie with that title on a selected channel
/// starts on a weekend.
pub proof fn lemma_report_titles(
    chs: Seq<ChannelView>,
    ps: Seq<ProgramView>,
    callsigns: Seq<Seq<char>>,
    weekend: Seq<bool>,
)
    requires
        ps.len() <= usize::MAX,
        weekend.len() == ps.len(),
    ensures
        forall|i: int, j: int| 0 <= i < j < weekend_rows(chs, ps, callsigns, weekend).len() ==> crate::text::str_lt(
            #[trigger] weekend_rows(chs, ps, callsigns, weekend)[i].title,
            #[trigger] weekend_rows(chs, ps, callsigns, weekend)[j].title,
        ),
        forall|t: Seq<char>| #[trigger] titled_row(weekend_rows(chs, ps, callsigns, weekend), t) <==> shown_on_weekend(
            ps,
            selected_channels(chs, callsigns),
            weekend,
            t,
        ),
{
    let sel = selected_channels(chs, callsigns);
    let pairs = movie_pairs(ps, sel, ps.len() as int);
    let mg = movie_groups(ps, sel);
    let pred = weekend_group(weekend);
    let wg = weekend_groups(chs, ps, callsigns, weekend);
    let rows = weekend_rows(chs, ps, callsigns, weekend);
    lemma_group(pairs);
    lemma_movie_pairs(ps, sel, ps.len() as int);
    lemma_filter_sorted(mg, pred);
    assert forall|i: int, j: int| 0 <= i < j < rows.len() implies crate::text::str_lt(#[trigger] rows[i].title, #[trigger] rows[j].title) by {
        assert(rows[i].title == wg[i].0);
        assert(rows[j].title == wg[j].0);
    };
    assert forall|t: Seq<char>| #[trigger] titled_row(rows, t) implies shown_on_weekend(ps, sel, weekend, t) by {
        let i = choose|i: int| 0 <= i < rows.len() && #[trigger] rows[i].title == t;
        let e = wg[i];
        assert(rows[i].title == e.0);
        mg.lemma_filter_pred(pred, i);
        assert(wg.contains(e));
        mg.lemma_filter_contains_rev(pred, e);
        let gi = choose|gi: int| 0 <= gi < mg.len() && mg[gi] == e;
        assert(has_key(mg, t));
        lemma_index_of_unique(mg, t, gi);
        assert(as_map(mg).contains_key(t));
        assert(as_map(mg)[t] == e.1);
        assert(e.1 == values_with_key(pairs, t));
        let j = choose|j: int| 0 <= j < e.1.len() && #[trigger] weekend[e.1[j] as int];
        lemma_values_with_key_members(pairs, t);
        let x = choose|x: int| 0 <= x < pairs.len() && #[trigger] pairs[x] == (t, values_with_key(pairs, t)[j]);
        let p = e.1[j] as int;
        assert(pairs[x].1 == e.1[j]);
        assert(is_selected_movie(ps[p], sel) && ps[p].title == t && weekend[p]);
    };
    assert forall|t: Seq<char>| #[trigger] shown_on_weekend(ps, sel, weekend, t) implies titled_row(rows, t) by {
        let p = choose|p: int| 0 <= p < ps.len() && is_selected_movie(#[trigger] ps[p], sel) && ps[p].title == t && weekend[p];
        lemma_movie_pair_present(ps, sel, ps.len() as int, p);
        let x = choose|x: int| 0 <= x < pairs.len() && #[trigger] pairs[x] == (ps[p].title, p as usize);
        assert(pairs_have_key(pairs, t));
        assert(as_map(mg).contains_key(t));
        let gi = index_of(mg, t);
        assert(as_map(mg)[t] == mg[gi].1);
        lemma_value_listed(pairs, x);
        assert(values_with_key(pairs, t).contains(p as usize));
        let j = choose|j: int| 0 <= j < mg[gi].1.len() && mg[gi].1[j] == p as usize;
        assert(weekend[mg[gi].1[j] as int]);
        assert(pred(mg[gi]));
        mg.lemma_filter_contains(pred, gi);
        let i = choose|i: int| 0 <= i < wg.len() && wg[i] == mg[gi];
        assert(rows[i].title == t);
    };
}

/// Putting an entry in commutes with taking the lists as sequences.
proof fn lemma_index_lists_insert(s: Seq<(Seq<char>, Vec<usize>)>, k: Seq<char>, v: Vec<usize>)
    requires
        sorted_keys(s),
        !has_key(s, k),
    ensures
        index_lists(insert_spec(s, k, v)) == insert_spec(index_lists(s), k, v@),
{
    lemma_index_lists_keys(s);
    let t = index_lists(s);
    crate::sorted_map::lemma_insert_pos_exists(s, k);
    let p = choose|p: int| crate::sorted_map::is_insert_pos(s, k, p);
    crate::sorted_map::lemma_insert_as_map(s, k, v);
    assert(crate::sorted_map::is_insert_pos(t, k, p)) by {
        assert forall|j: int| 0 <= j < p implies crate::text::str_lt(#[trigger] t[j].0, k) by {
            assert(crate::text::str_lt(s[j].0, k));
        };
        assert forall|j: int| p <= j < t.len() implies crate::text::str_lt(k, #[trigger] t[j].0) by {
            assert(crate::text::str_lt(k, s[j].0));
        };
    };
    assert(!has_key(t, k));
    let q = choose|q: int| crate::sorted_map::is_insert_pos(t, k, q);
    crate::sorted_map::lemma_insert_pos_unique(t, k, p, q);
    assert(index_lists(insert_spec(s, k, v)) =~= insert_spec(t, k, v@));
}

} // verus!
