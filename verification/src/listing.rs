//! The team and bot listings of the website: reading the query, paging and
//! assembling teams with their members.
use crate::communication::{all_digits, digits_value, is_digit, lemma_decimal_reads_back};
use crate::text::decimal;
use crate::matchplay::{bot_text, WhichBot};
use vstd::prelude::*;

verus! {

#[derive(Clone, Copy, PartialEq, Eq, Debug, Structural)]
pub enum TeamsQuerySort {
    Score,
    Created,
}

#[derive(Clone, Copy, PartialEq, Eq, Debug, Structural)]
pub enum TeamsQuerySortDirection {
    Asc,
    Desc,
}

/// The query of the team listing.
pub struct TeamQuery {
    /// Comma-separated team ids.
    pub ids: Option<String>,
    pub page_size: Option<i32>,
    pub page: Option<i32>,
    pub fill_members: Option<bool>,
    pub sort: Option<TeamsQuerySort>,
    pub sort_direction: Option<TeamsQuerySortDirection>,
    /// Only count the matching teams.
    pub count: Option<bool>,
}

/// The query of the bot listing.
pub struct BotQuery {
    pub ids: Option<String>,
    pub team: Option<i32>,
    pub page_size: Option<i32>,
    pub page: Option<i32>,
    pub count: Option<bool>,
    pub join_team: Option<bool>,
}

/// The column teams are ordered by.
#[derive(Clone, Copy, PartialEq, Eq, Debug, Structural)]
pub enum TeamOrder {
    Score,
    Id,
}

/// A page of a listing: how many rows and how many rows to skip.
#[derive(Clone, Copy, PartialEq, Eq, Debug, Structural)]
pub struct Window {
    pub limit: i32,
    pub offset: i32,
}

/// What the team listing asks of the database.
pub struct TeamsPlan {
    /// Column and ascending order, unless only counting.
    pub order: Option<(TeamOrder, bool)>,
    pub ids: Option<Vec<i32>>,
    /// The page, unless only counting.
    pub window: Option<Window>,
    pub fill_members: bool,
}

/// What the bot listing asks of the database; bots are always listed newest
/// first.
pub struct BotsPlan {
    pub ids: Option<Vec<i32>>,
    pub team: Option<i32>,
    /// The page, unless only counting.
    pub window: Option<Window>,
    pub join_team: bool,
}

/// A query that cannot be answered.
#[derive(Clone, Copy, PartialEq, Eq, Debug, Structural)]
pub enum QueryError {
    /// An id in the list is not a number.
    InvalidIds,
}

// ------------------------------------------------------------------
// Lists of ids
// ------------------------------------------------------------------

/// How a 32-bit signed number is read from text: an optional sign and at
/// least one decimal digit, the value within the range of `i32`.
pub open spec fn parse_i32(s: Seq<char>) -> Option<i32> {
    let negative = s.len() > 0 && s[0] == '-';
    let digits = if s.len() > 0 && (s[0] == '+' || s[0] == '-') {
        s.drop_first()
    } else {
        s
    };
    let v: int = if negative {
        -digits_value(digits)
    } else {
        digits_value(digits) as int
    };
    if digits.len() > 0 && all_digits(digits) && i32::MIN <= v <= i32::MAX {
        Some(v as i32)
    } else {
        None
    }
}

pub open spec fn has_comma(s: Seq<char>) -> bool {
    exists|i: int| 0 <= i < s.len() && s[i] == ','
}

pub open spec fn first_comma(s: Seq<char>) -> int {
    choose|i: int| 0 <= i < s.len() && s[i] == ',' && forall|j: int| 0 <= j < i ==> #[trigger] s[j] != ','
}

/// The pieces of `s` between commas.
pub open spec fn split_commas(s: Seq<char>) -> Seq<Seq<char>>
    decreases s.len(),
{
    if has_comma(s) {
        let i = first_comma(s);
        if 0 <= i < s.len() {
            seq![s.subrange(0, i)] + split_commas(s.subrange(i + 1, s.len() as int))
        } else {
            seq![s]
        }
    } else {
        seq![s]
    }
}

/// A comma-separated list of ids, when every piece is a number.
pub open spec fn parse_ids_spec(s: Seq<char>) -> Option<Seq<i32>> {
    let pieces = split_commas(s);
    if forall|k: int| 0 <= k < pieces.len() ==> #[trigger] parse_i32(pieces[k]) is Some {
        Some(Seq::new(pieces.len(), |k: int| parse_i32(pieces[k])->0))
    } else {
        None
    }
}

proof fn lemma_first_comma(s: Seq<char>, i: int)
    requires
        0 <= i < s.len(),
        s[i] == ',',
        forall|j: int| 0 <= j < i ==> #[trigger] s[j] != ',',
    ensures
        has_comma(s),
        first_comma(s) == i,
{
    assert(has_comma(s));
    let w = first_comma(s);
    assert(0 <= w < s.len() && s[w] == ',' && forall|j: int| 0 <= j < w ==> #[trigger] s[j] != ',');
    if w < i {
        assert(s[w] != ',');
    }
    if w > i {
        assert(s[i] != ',');
    }
}

/// Reads the signed number written from `start` to `end` in `line`.
pub fn parse_i32_range(line: &str, start: usize, end: usize) -> (res: Option<i32>)
    requires
        start <= end <= line@.len(),
    ensures
        res == parse_i32(line@.subrange(start as int, end as int)),
{
    let ghost s = line@.subrange(start as int, end as int);
    let mut i = start;
    let mut negative = false;
    if i < end && (line.get_char(i) == '+' || line.get_char(i) == '-') {
        negative = line.get_char(i) == '-';
        i = i + 1;
    }
    let ghost digits = line@.subrange(i as int, end as int);
    assert(digits =~= (if s.len() > 0 && (s[0] == '+' || s[0] == '-') {
        s.drop_first()
    } else {
        s
    }));
    assert(negative == (s.len() > 0 && s[0] == '-'));
    if i == end {
        return None;
    }
    let first = i;
    let mut value: u64 = 0;
    while i < end
        invariant
            end <= line@.len(),
            first <= i <= end,
            digits == line@.subrange(first as int, end as int),
            s == line@.subrange(start as int, end as int),
            digits == (if s.len() > 0 && (s[0] == '+' || s[0] == '-') {
                s.drop_first()
            } else {
                s
            }),
            digits.len() > 0,
            all_digits(line@.subrange(first as int, i as int)),
            value as nat == digits_value(line@.subrange(first as int, i as int)),
            value <= 2147483648,
        decreases end - i,
    {
        let c = line.get_char(i);
        let ghost pre = line@.subrange(first as int, i as int);
        assert(line@.subrange(first as int, i + 1) =~= pre.push(c));
        assert(digits[i - first] == c);
        if c < '0' || c > '9' {
            assert(!is_digit(digits[i - first]));
            assert(!all_digits(digits));
            return None;
        }
        assert(pre.push(c).drop_last() =~= pre);
        value = value * 10 + (c as u32 - 48) as u64;
        if value > 2147483648 {
            proof {
                assert(all_digits(line@.subrange(first as int, i + 1)));
                if all_digits(digits) {
                    lemma_digits_prefix_bound(digits, (i + 1 - first) as int);
                    assert(digits.subrange(0, i + 1 - first) =~= line@.subrange(first as int, i + 1));
                }
            }
            return None;
        }
        i = i + 1;
    }
    assert(line@.subrange(first as int, end as int) =~= digits);
    if negative {
        Some((0 - value as i64) as i32)
    } else if value > 2147483647 {
        None
    } else {
        Some(value as i32)
    }
}

proof fn lemma_digits_prefix_bound(s: Seq<char>, k: int)
    requires
        0 <= k <= s.len(),
        all_digits(s),
    ensures
        digits_value(s.subrange(0, k)) <= digits_value(s),
    decreases s.len(),
{
    if k < s.len() {
        assert(s.drop_last() =~= s.subrange(0, s.len() - 1));
        assert(all_digits(s.drop_last()));
        lemma_digits_prefix_bound(s.drop_last(), k);
        assert(s.drop_last().subrange(0, k) =~= s.subrange(0, k));
    } else {
        assert(s.subrange(0, k) =~= s);
    }
}

fn find_comma(ids: &str, start: usize) -> (end: usize)
    requires
        start <= ids@.len(),
    ensures
        start <= end <= ids@.len(),
        forall|j: int| start <= j < end ==> #[trigger] ids@[j] != ',',
        end < ids@.len() ==> ids@[end as int] == ',',
{
    let n = ids.unicode_len();
    let mut end = start;
    while end < n && ids.get_char(end) != ','
        invariant
            n == ids@.len(),
            start <= end <= n,
            forall|j: int| start <= j < end ==> #[trigger] ids@[j] != ',',
        decreases n - end,
    {
        end = end + 1;
    }
    end
}

proof fn lemma_ids_done(s: Seq<char>, done: Seq<Seq<char>>, seg: Seq<char>, out: Seq<i32>)
    requires
        split_commas(s) == done + seq![seg],
        out.len() == done.len() + 1,
        forall|k: int| 0 <= k < done.len() ==> #[trigger] parse_i32(done[k]) == Some(out[k]),
        parse_i32(seg) == Some(out[done.len() as int]),
    ensures
        parse_ids_spec(s) == Some(out),
{
    let pieces = split_commas(s);
    assert forall|k: int| 0 <= k < pieces.len() implies #[trigger] parse_i32(pieces[k]) is Some by {
        if k < done.len() {
            assert(pieces[k] == done[k]);
        } else {
            assert(pieces[k] == seg);
        }
    }
    assert forall|k: int| 0 <= k < pieces.len() implies parse_i32(pieces[k])->0 == out[k] by {
        if k < done.len() {
            assert(pieces[k] == done[k]);
        } else {
            assert(pieces[k] == seg);
        }
    }
    assert(Seq::new(pieces.len(), |k: int| parse_i32(pieces[k])->0) =~= out);
}

proof fn lemma_ids_fail(s: Seq<char>, done: Seq<Seq<char>>, seg: Seq<char>, rest: Seq<Seq<char>>)
    requires
        split_commas(s) == done + (seq![seg] + rest),
        parse_i32(seg) is None,
    ensures
        parse_ids_spec(s) is None,
{
    let pieces = split_commas(s);
    assert(pieces[done.len() as int] == seg);
}

/// Reads a comma-separated list of ids.
pub fn parse_ids(ids: &str) -> (res: Option<Vec<i32>>)
    ensures
        match res {
            Some(v) => parse_ids_spec(ids@) == Some(v@),
            None => parse_ids_spec(ids@) is None,
        },
{
    let n = ids.unicode_len();
    let ghost s = ids@;
    let mut out: Vec<i32> = Vec::new();
    let mut start: usize = 0;
    let ghost mut done: Seq<Seq<char>> = Seq::empty();
    proof {
        assert(s.subrange(0, n as int) =~= s);
        assert(split_commas(s) =~= done + split_commas(s.subrange(0, n as int)));
    }
    loop
        invariant
            n == s.len(),
            s == ids@,
            start <= n,
            split_commas(s) == done + split_commas(s.subrange(start as int, n as int)),
            out@.len() == done.len(),
            forall|k: int| 0 <= k < done.len() ==> #[trigger] parse_i32(done[k]) == Some(out@[k]),
        decreases n - start,
    {
        let end = find_comma(ids, start);
        let ghost seg = s.subrange(start as int, end as int);
        proof {
            lemma_split_head(s, start as int, end as int, n as int);
        }
        match parse_i32_range(ids, start, end) {
            None => {
                proof {
                    if end == n {
                        lemma_ids_fail(s, done, seg, Seq::empty());
                    } else {
                        lemma_ids_fail(s, done, seg, split_commas(s.subrange(end + 1, n as int)));
                    }
                }
                return None;
            },
            Some(v) => {
                let ghost old_out = out@;
                out.push(v);
                if end == n {
                    proof {
                        assert(split_commas(s) =~= done + seq![seg]);
                        lemma_ids_done(s, done, seg, out@);
                    }
                    return Some(out);
                }
                proof {
                    assert(split_commas(s) =~= done.push(seg) + split_commas(
                        s.subrange(end + 1, n as int),
                    ));
                    done = done.push(seg);
                }
                start = end + 1;
            },
        }
    }
}

/// The first piece of `s[start..n]` ends at `end`: at a comma, or at `n`.
proof fn lemma_split_head(s: Seq<char>, start: int, end: int, n: int)
    requires
        0 <= start <= end <= n == s.len(),
        forall|j: int| start <= j < end ==> #[trigger] s[j] != ',',
        end < n ==> s[end] == ',',
    ensures
        end == n ==> split_commas(s.subrange(start, n)) == seq![s.subrange(start, end)],
        end < n ==> split_commas(s.subrange(start, n)) == seq![s.subrange(start, end)]
            + split_commas(s.subrange(end + 1, n)),
{
    let rest = s.subrange(start, n);
    if end == n {
        assert(!has_comma(rest)) by {
            if has_comma(rest) {
                let i = choose|i: int| 0 <= i < rest.len() && rest[i] == ',';
                assert(s[start + i] != ',');
            }
        }
    } else {
        assert forall|j: int| 0 <= j < end - start implies #[trigger] rest[j] != ',' by {
            assert(s[start + j] != ',');
        }
        lemma_first_comma(rest, end - start);
        assert(rest.subrange(0, end - start) =~= s.subrange(start, end));
        assert(rest.subrange(end - start + 1, rest.len() as int) =~= s.subrange(end + 1, n));
    }
}


/// How an id is written: a minus sign for a negative one, then its decimal
/// digits.
pub open spec fn id_text(v: i32) -> Seq<char> {
    if v < 0 {
        seq!['-'] + decimal((-v) as nat)
    } else {
        decimal(v as nat)
    }
}

/// Ids written one after the other, separated by commas.
pub open spec fn joined_ids(ids: Seq<i32>) -> Seq<char>
    decreases ids.len(),
{
    if ids.len() <= 1 {
        if ids.len() == 1 {
            id_text(ids[0])
        } else {
            Seq::empty()
        }
    } else {
        id_text(ids[0]) + seq![','] + joined_ids(ids.drop_first())
    }
}

proof fn lemma_id_text(v: i32)
    ensures
        parse_i32(id_text(v)) == Some(v),
        !has_comma(id_text(v)),
{
    let t = id_text(v);
    if v < 0 {
        let m = (-v) as nat;
        lemma_decimal_reads_back(m);
        assert(t.drop_first() =~= decimal(m));
        assert forall|i: int| 0 <= i < t.len() implies t[i] != ',' by {
            if i > 0 {
                assert(t[i] == decimal(m)[i - 1]);
                assert(is_digit(decimal(m)[i - 1]));
            }
        }
    } else {
        lemma_decimal_reads_back(v as nat);
        assert forall|i: int| 0 <= i < t.len() implies t[i] != ',' by {
            assert(is_digit(t[i]));
        }
    }
}

/// A piece without a comma, a comma and the rest split into that piece and
/// the pieces of the rest.
proof fn lemma_split_step(t: Seq<char>, rest: Seq<char>)
    requires
        !has_comma(t),
    ensures
        split_commas(t + seq![','] + rest) == seq![t] + split_commas(rest),
{
    let s = t + seq![','] + rest;
    assert forall|j: int| 0 <= j < t.len() implies #[trigger] s[j] != ',' by {
        assert(s[j] == t[j]);
        if t[j] == ',' {
            assert(has_comma(t));
        }
    }
    lemma_first_comma(s, t.len() as int);
    assert(s.subrange(0, t.len() as int) =~= t);
    assert(s.subrange(t.len() + 1int, s.len() as int) =~= rest);
}

/// The pieces of a joined list are the written ids.
proof fn lemma_split_joined(ids: Seq<i32>)
    requires
        ids.len() > 0,
    ensures
        split_commas(joined_ids(ids)) == Seq::new(ids.len(), |k: int| id_text(ids[k])),
    decreases ids.len(),
{
    lemma_id_text(ids[0]);
    if ids.len() == 1 {
        assert(split_commas(joined_ids(ids)) == seq![id_text(ids[0])]);
        assert(seq![id_text(ids[0])] =~= Seq::new(ids.len(), |k: int| id_text(ids[k])));
    } else {
        let rest = ids.drop_first();
        lemma_split_joined(rest);
        lemma_split_step(id_text(ids[0]), joined_ids(rest));
        assert(seq![id_text(ids[0])] + Seq::new(rest.len(), |k: int| id_text(rest[k])) =~= Seq::new(
            ids.len(),
            |k: int| id_text(ids[k]),
        ));
    }
}

/// Ids written one after the other with commas between them are read back
/// as the same ids.
pub proof fn lemma_ids_read_back(ids: Seq<i32>)
    requires
        ids.len() > 0,
    ensures
        parse_ids_spec(joined_ids(ids)) == Some(ids),
{
    lemma_split_joined(ids);
    let pieces = split_commas(joined_ids(ids));
    assert forall|k: int| 0 <= k < pieces.len() implies #[trigger] parse_i32(pieces[k]) == Some(ids[k]) by {
        lemma_id_text(ids[k]);
    }
    assert(Seq::new(pieces.len(), |k: int| parse_i32(pieces[k])->0) =~= ids);
}

// ------------------------------------------------------------------
// Planning a listing
// ------------------------------------------------------------------

/// The page size asked for (10 when none), at most 100.
pub open spec fn page_size_of(page_size: Option<i32>) -> int {
    let p = match page_size {
        Some(p) => p as int,
        None => 10,
    };
    if p <= 100 {
        p
    } else {
        100
    }
}

pub open spec fn page_of(page: Option<i32>) -> int {
    match page {
        Some(p) => p as int,
        None => 0,
    }
}

/// The page window can be computed: page times page size fits in `i32`.
pub open spec fn window_fits(page_size: Option<i32>, page: Option<i32>) -> bool {
    i32::MIN <= page_of(page) * page_size_of(page_size) <= i32::MAX
}

fn page_window(page_size: Option<i32>, page: Option<i32>) -> (w: Window)
    requires
        window_fits(page_size, page),
    ensures
        w.limit as int == page_size_of(page_size),
        w.offset as int == page_of(page) * page_size_of(page_size),
{
    let size = match page_size {
        Some(p) => p,
        None => 10,
    };
    let size = if size <= 100 {
        size
    } else {
        100
    };
    let page = match page {
        Some(p) => p,
        None => 0,
    };
    assert(page as int * size as int == page_of(Some(page)) * page_size_of(Some(size)));
    Window { limit: size, offset: page * size }
}

pub open spec fn flag(b: Option<bool>) -> bool {
    match b {
        Some(b) => b,
        None => false,
    }
}

/// The order of a team listing: by score unless sorted by creation (then by
/// id), descending unless ascending is asked for.
pub open spec fn team_order(sort: Option<TeamsQuerySort>, dir: Option<TeamsQuerySortDirection>) -> (TeamOrder, bool) {
    (
        match sort {
            Some(TeamsQuerySort::Created) => TeamOrder::Id,
            _ => TeamOrder::Score,
        },
        dir == Some(TeamsQuerySortDirection::Asc),
    )
}

/// The planned order follows the query: teams are sorted by creation when
/// asked, by score otherwise, and ascending exactly when ascending order was
/// asked, whatever the column.
pub proof fn lemma_team_order_follows_query(sort: Option<TeamsQuerySort>, dir: Option<TeamsQuerySortDirection>)
    ensures
        team_order(sort, dir).1 <==> dir == Some(TeamsQuerySortDirection::Asc),
        team_order(sort, dir).0 == TeamOrder::Id <==> sort == Some(TeamsQuerySort::Created),
        team_order(sort, dir).0 == TeamOrder::Score <==> sort != Some(TeamsQuerySort::Created),
{
}

/// A page holds the asked number of rows (10 when none is asked), never
/// more than 100, and skips the rows of the pages before it.
pub proof fn lemma_page_window(page_size: Option<i32>, page: Option<i32>)
    ensures
        page_size_of(page_size) <= 100,
        page_size is None ==> page_size_of(page_size) == 10,
        page_size is Some && page_size->0 <= 100 ==> page_size_of(page_size) == page_size->0,
        page_size is Some && page_size->0 > 100 ==> page_size_of(page_size) == 100,
        page is None ==> page_of(page) * page_size_of(page_size) == 0,
        page is Some ==> page_of(page) * page_size_of(page_size) == page->0 * page_size_of(page_size),
{
}

pub open spec fn ids_ok(ids: Option<String>) -> bool {
    match ids {
        Some(s) => parse_ids_spec(s@) is Some,
        None => true,
    }
}

pub open spec fn ids_match(ids: Option<String>, got: Option<Vec<i32>>) -> bool {
    match ids {
        Some(s) => got is Some && parse_ids_spec(s@) == Some(got->0@),
        None => got is None,
    }
}

fn read_ids(ids: &Option<String>) -> (res: Result<Option<Vec<i32>>, QueryError>)
    ensures
        res is Ok <==> ids_ok(*ids),
        res matches Ok(got) ==> ids_match(*ids, got),
{
    match ids {
        Some(s) => match parse_ids(s.as_str()) {
            Some(v) => Ok(Some(v)),
            None => Err(QueryError::InvalidIds),
        },
        None => Ok(None),
    }
}

/// What the team listing asks of the database.  A count ignores order and
/// page; unreadable ids refuse the query.
pub fn plan_teams_query(query: &TeamQuery) -> (res: Result<TeamsPlan, QueryError>)
    requires
        !flag(query.count) && ids_ok(query.ids) ==> window_fits(query.page_size, query.page),
    ensures
        res is Ok <==> ids_ok(query.ids),
        res matches Ok(plan) ==> {
            &&& ids_match(query.ids, plan.ids)
            &&& plan.fill_members == flag(query.fill_members)
            &&& flag(query.count) ==> plan.order is None && plan.window is None
            &&& !flag(query.count) ==> plan.order == Some(team_order(query.sort, query.sort_direction))
            &&& !flag(query.count) ==> (plan.window matches Some(w) && w.limit as int
                == page_size_of(query.page_size) && w.offset as int == page_of(query.page)
                * page_size_of(query.page_size))
        },
{
    let count = match query.count {
        Some(b) => b,
        None => false,
    };
    let order = if !count {
        let column = match query.sort {
            Some(TeamsQuerySort::Created) => TeamOrder::Id,
            _ => TeamOrder::Score,
        };
        let ascending = match query.sort_direction {
            Some(TeamsQuerySortDirection::Asc) => true,
            _ => false,
        };
        Some((column, ascending))
    } else {
        None
    };
    let ids = read_ids(&query.ids)?;
    let window = if count {
        None
    } else {
        Some(page_window(query.page_size, query.page))
    };
    let fill_members = match query.fill_members {
        Some(b) => b,
        None => false,
    };
    Ok(TeamsPlan { order, ids, window, fill_members })
}

/// What the bot listing asks of the database.  A count ignores the page;
/// unreadable ids refuse the query.
pub fn plan_bots_query(query: &BotQuery) -> (res: Result<BotsPlan, QueryError>)
    requires
        !flag(query.count) && ids_ok(query.ids) ==> window_fits(query.page_size, query.page),
    ensures
        res is Ok <==> ids_ok(query.ids),
        res matches Ok(plan) ==> {
            &&& ids_match(query.ids, plan.ids)
            &&& plan.team == query.team
            &&& plan.join_team == flag(query.join_team)
            &&& flag(query.count) ==> plan.window is None
            &&& !flag(query.count) ==> (plan.window matches Some(w) && w.limit as int
                == page_size_of(query.page_size) && w.offset as int == page_of(query.page)
                * page_size_of(query.page_size))
        },
{
    let ids = read_ids(&query.ids)?;
    let count = match query.count {
        Some(b) => b,
        None => false,
    };
    let window = if count {
        None
    } else {
        Some(page_window(query.page_size, query.page))
    };
    let join_team = match query.join_team {
        Some(b) => b,
        None => false,
    };
    Ok(BotsPlan { ids, team: query.team, window, join_team })
}

// ------------------------------------------------------------------
// Teams with their members
// ------------------------------------------------------------------

pub struct Team {
    pub id: i32,
    pub team_name: String,
    pub owner: String,
    pub score: Option<i32>,
    pub active_bot: Option<i32>,
}

pub struct User {
    pub email: String,
    pub display_name: String,
    pub team_id: Option<i32>,
    pub is_admin: bool,
}

pub struct TeamInvite {
    pub invite_code: String,
    pub teamid: i32,
    pub expires: i64,
}

pub struct TeamWithMembers {
    pub id: i32,
    pub team_name: String,
    pub owner: String,
    pub score: Option<i32>,
    pub active_bot: Option<i32>,
    pub members: Vec<User>,
    /// Only shown to the team's own members.
    pub invites: Option<Vec<TeamInvite>>,
}

/// The users on team `id`, in their order.
pub open spec fn members_of(users: Seq<User>, id: i32) -> Seq<User>
    decreases users.len(),
{
    if users.len() == 0 {
        Seq::empty()
    } else if users.last().team_id == Some(id) {
        members_of(users.drop_last(), id).push(users.last())
    } else {
        members_of(users.drop_last(), id)
    }
}

/// The invites of team `id`, in their order.
pub open spec fn invites_of(invites: Seq<TeamInvite>, id: i32) -> Seq<TeamInvite>
    decreases invites.len(),
{
    if invites.len() == 0 {
        Seq::empty()
    } else if invites.last().teamid == id {
        invites_of(invites.drop_last(), id).push(invites.last())
    } else {
        invites_of(invites.drop_last(), id)
    }
}

fn copy_user(u: &User) -> (res: User)
    ensures
        res == *u,
{
    User {
        email: u.email.clone(),
        display_name: u.display_name.clone(),
        team_id: u.team_id,
        is_admin: u.is_admin,
    }
}

fn copy_invite(i: &TeamInvite) -> (res: TeamInvite)
    ensures
        res == *i,
{
    TeamInvite { invite_code: i.invite_code.clone(), teamid: i.teamid, expires: i.expires }
}

fn members_of_team(users: &Vec<User>, id: i32) -> (res: Vec<User>)
    ensures
        res@ == members_of(users@, id),
{
    let mut res: Vec<User> = Vec::new();
    let mut i: usize = 0;
    while i < users.len()
        invariant
            i <= users.len(),
            res@ == members_of(users@.subrange(0, i as int), id),
        decreases users.len() - i,
    {
        let ghost pre = users@.subrange(0, i as int);
        assert(users@.subrange(0, i + 1).drop_last() =~= pre);
        if users[i].team_id == Some(id) {
            res.push(copy_user(&users[i]));
        }
        i = i + 1;
    }
    assert(users@.subrange(0, users@.len() as int) =~= users@);
    res
}

fn invites_of_team(invites: &Vec<TeamInvite>, id: i32) -> (res: Vec<TeamInvite>)
    ensures
        res@ == invites_of(invites@, id),
{
    let mut res: Vec<TeamInvite> = Vec::new();
    let mut i: usize = 0;
    while i < invites.len()
        invariant
            i <= invites.len(),
            res@ == invites_of(invites@.subrange(0, i as int), id),
        decreases invites.len() - i,
    {
        let ghost pre = invites@.subrange(0, i as int);
        assert(invites@.subrange(0, i + 1).drop_last() =~= pre);
        if invites[i].teamid == id {
            res.push(copy_invite(&invites[i]));
        }
        i = i + 1;
    }
    assert(invites@.subrange(0, invites@.len() as int) =~= invites@);
    res
}

/// Team `t` listed with its members: the users on it; its invites only for
/// the team of the user asking (`my_team`).
pub open spec fn team_listed(
    t: Team,
    users: Seq<User>,
    invites: Seq<TeamInvite>,
    my_team: Option<i32>,
    r: TeamWithMembers,
) -> bool {
    &&& r.id == t.id
    &&& r.team_name == t.team_name
    &&& r.owner == t.owner
    &&& r.score == t.score
    &&& r.active_bot == t.active_bot
    &&& r.members@ == members_of(users, t.id)
    &&& if my_team == Some(t.id) {
        r.invites matches Some(v) && v@ == invites_of(invites, t.id)
    } else {
        r.invites is None
    }
}

/// Lists each team with its members, and with its invites for the team of
/// the user asking.
pub fn fill_members(
    teams: Vec<Team>,
    users: &Vec<User>,
    invites: &Vec<TeamInvite>,
    my_team: Option<i32>,
) -> (res: Vec<TeamWithMembers>)
    ensures
        res@.len() == teams@.len(),
        forall|k: int| 0 <= k < teams@.len() ==> team_listed(
            #[trigger] teams@[k],
            users@,
            invites@,
            my_team,
            res@[k],
        ),
{
    let mut res: Vec<TeamWithMembers> = Vec::new();
    let mut k: usize = 0;
    while k < teams.len()
        invariant
            k <= teams@.len(),
            res@.len() == k,
            forall|j: int| 0 <= j < k ==> team_listed(
                #[trigger] teams@[j],
                users@,
                invites@,
                my_team,
                res@[j],
            ),
        decreases teams.len() - k,
    {
        let t = &teams[k];
        let members = members_of_team(users, t.id);
        let shown = if my_team == Some(t.id) {
            Some(invites_of_team(invites, t.id))
        } else {
            None
        };
        res.push(
            TeamWithMembers {
                id: t.id,
                team_name: t.team_name.clone(),
                owner: t.owner.clone(),
                score: t.score,
                active_bot: t.active_bot,
                members,
                invites: shown,
            },
        );
        k = k + 1;
    }
    res
}

// ------------------------------------------------------------------
// Profile pictures
// ------------------------------------------------------------------

/// The address of the bucket of profile pictures: an empty location means
/// us-east-1.
pub fn pfp_endpoint(bucket: &str, location: &str) -> (res: String)
    ensures
        res@ == "https://"@ + bucket@ + ".s3."@ + (if location@.len() == 0 {
            "us-east-1"@
        } else {
            location@
        }) + ".amazonaws.com"@,
{
    proof {
        reveal_strlit("https://");
        reveal_strlit(".s3.");
        reveal_strlit("us-east-1");
        reveal_strlit(".amazonaws.com");
    }
    let mut s = String::from_str("https://");
    s.append(bucket);
    s.append(".s3.");
    if location.unicode_len() == 0 {
        s.append("us-east-1");
    } else {
        s.append(location);
    }
    s.append(".amazonaws.com");
    s
}


// ------------------------------------------------------------------
// Game logs and records
// ------------------------------------------------------------------

/// The storage key of a game's log: a bot's own log, or the public one.
pub fn game_log_key(which_bot: Option<WhichBot>, id: &str) -> (res: String)
    ensures
        res@ == (match which_bot {
            Some(b) => bot_text(b),
            None => "public"@,
        }) + "/"@ + id@,
{
    proof {
        reveal_strlit("public");
        reveal_strlit("/");
    }
    let mut s = match which_bot {
        Some(b) => b.to_string(),
        None => String::from_str("public"),
    };
    s.append("/");
    s.append(id);
    s
}

pub open spec fn has_newline(s: Seq<u8>) -> bool {
    exists|i: int| 0 <= i < s.len() && s[i] == 10
}

pub open spec fn first_newline(s: Seq<u8>) -> int {
    choose|i: int| 0 <= i < s.len() && s[i] == 10 && forall|j: int| 0 <= j < i ==> #[trigger] s[j] != 10
}

/// Line `n` (from 0) of `s`, the lines being the pieces between newline
/// bytes; empty when `s` has fewer lines.
pub open spec fn nth_line(s: Seq<u8>, n: nat) -> Seq<u8>
    decreases n,
{
    if has_newline(s) {
        let i = first_newline(s);
        if n == 0 {
            s.subrange(0, i)
        } else {
            nth_line(s.subrange(i + 1, s.len() as int), (n - 1) as nat)
        }
    } else if n == 0 {
        s
    } else {
        Seq::empty()
    }
}

proof fn lemma_first_newline(s: Seq<u8>, i: int)
    requires
        0 <= i < s.len(),
        s[i] == 10,
        forall|j: int| 0 <= j < i ==> #[trigger] s[j] != 10,
    ensures
        has_newline(s),
        first_newline(s) == i,
{
    assert(has_newline(s));
    let w = first_newline(s);
    assert(0 <= w < s.len() && s[w] == 10 && forall|j: int| 0 <= j < w ==> #[trigger] s[j] != 10);
    if w < i {
        assert(s[w] != 10);
    }
    if w > i {
        assert(s[i] != 10);
    }
}

/// Past a newline, the lines of the rest are the following lines.
proof fn lemma_nth_line_step(s: Seq<u8>, start: int, nl: int, k: nat)
    requires
        0 <= start <= nl < s.len(),
        s[nl] == 10,
        forall|j: int| start <= j < nl ==> #[trigger] s[j] != 10,
    ensures
        k > 0 ==> nth_line(s.subrange(start, s.len() as int), k) == nth_line(
            s.subrange(nl + 1, s.len() as int),
            (k - 1) as nat,
        ),
        k == 0 ==> nth_line(s.subrange(start, s.len() as int), k) == s.subrange(start, nl),
{
    let rest = s.subrange(start, s.len() as int);
    assert forall|j: int| 0 <= j < nl - start implies #[trigger] rest[j] != 10 by {
        assert(rest[j] == s[start + j]);
    }
    lemma_first_newline(rest, nl - start);
    assert(rest.subrange(nl - start + 1, rest.len() as int) =~= s.subrange(nl + 1, s.len() as int));
    assert(rest.subrange(0, nl - start) =~= s.subrange(start, nl));
}

/// Without a further newline, the rest is the last line.
proof fn lemma_nth_line_last(s: Seq<u8>, start: int, k: nat)
    requires
        0 <= start <= s.len(),
        forall|j: int| start <= j < s.len() ==> #[trigger] s[j] != 10,
    ensures
        nth_line(s.subrange(start, s.len() as int), k) == if k == 0 {
            s.subrange(start, s.len() as int)
        } else {
            Seq::empty()
        },
{
    let rest = s.subrange(start, s.len() as int);
    assert(!has_newline(rest)) by {
        if has_newline(rest) {
            let w = choose|i: int| 0 <= i < rest.len() && rest[i] == 10;
            assert(s[start + w] == 10);
        }
    }
}

/// Where the next newline byte is from `start` on, or the length.
fn find_newline(s: &[u8], start: usize) -> (res: usize)
    requires
        start <= s@.len(),
    ensures
        start <= res <= s@.len(),
        forall|j: int| start <= j < res ==> #[trigger] s@[j] != 10,
        res < s@.len() ==> s@[res as int] == 10,
{
    let mut k = start;
    while k < s.len() && s[k] != 10
        invariant
            start <= k <= s@.len(),
            forall|j: int| start <= j < k ==> #[trigger] s@[j] != 10,
        decreases s@.len() - k,
    {
        k = k + 1;
    }
    k
}

/// Line `round` of a game record: one stored step per line.
pub fn record_line(record: &[u8], round: usize) -> (res: Vec<u8>)
    ensures
        res@ == nth_line(record@, round as nat),
{
    let ghost s = record@;
    let n = record.len();
    let mut start: usize = 0;
    let mut line: usize = 0;
    assert(s.subrange(0, n as int) =~= s);
    while line < round
        invariant
            n == s.len(),
            s == record@,
            start <= n,
            line <= round,
            nth_line(s, round as nat) == nth_line(s.subrange(start as int, n as int), (round - line) as nat),
        decreases round - line,
    {
        let nl = find_newline(record, start);
        if nl == n {
            proof {
                lemma_nth_line_last(s, start as int, (round - line) as nat);
            }
            return Vec::new();
        }
        proof {
            lemma_nth_line_step(s, start as int, nl as int, (round - line) as nat);
        }
        start = nl + 1;
        line = line + 1;
    }
    let end = find_newline(record, start);
    let mut out: Vec<u8> = Vec::new();
    let mut k = start;
    while k < end
        invariant
            start <= k <= end <= n,
            n == record@.len(),
            out@ == record@.subrange(start as int, k as int),
        decreases end - k,
    {
        out.push(record[k]);
        k = k + 1;
        assert(out@ =~= record@.subrange(start as int, k as int));
    }
    proof {
        if end < n {
            lemma_nth_line_step(s, start as int, end as int, 0);
        } else {
            lemma_nth_line_last(s, start as int, 0);
        }
    }
    out
}


/// Records written one per line, each followed by a newline byte.
pub open spec fn joined_lines(lines: Seq<Seq<u8>>) -> Seq<u8>
    decreases lines.len(),
{
    if lines.len() == 0 {
        Seq::empty()
    } else {
        lines[0] + seq![10u8] + joined_lines(lines.drop_first())
    }
}

/// Reading line `k` of records written one per line gives back record `k`
/// (and nothing past the last one), as long as no record holds a newline.
pub proof fn lemma_record_line_reads_written(lines: Seq<Seq<u8>>, k: nat)
    requires
        forall|i: int, j: int|
            0 <= i < lines.len() && 0 <= j < lines[i].len() ==> #[trigger] lines[i][j] != 10,
    ensures
        k < lines.len() ==> nth_line(joined_lines(lines), k) == lines[k as int],
        k >= lines.len() ==> nth_line(joined_lines(lines), k) == Seq::<u8>::empty(),
    decreases lines.len(),
{
    let s = joined_lines(lines);
    if lines.len() == 0 {
        assert(!has_newline(s));
    } else {
        let l0 = lines[0];
        let rest = lines.drop_first();
        assert forall|i: int, j: int| 0 <= i < rest.len() && 0 <= j < rest[i].len() implies #[trigger] rest[i][j]
            != 10 by {
            assert(rest[i] == lines[i + 1]);
        }
        assert forall|j: int| 0 <= j < l0.len() implies #[trigger] s[j] != 10 by {
            assert(s[j] == l0[j]);
            assert(lines[0][j] != 10);
        }
        lemma_first_newline(s, l0.len() as int);
        assert(s.subrange(0, l0.len() as int) =~= l0);
        assert(s.subrange(l0.len() + 1int, s.len() as int) =~= joined_lines(rest));
        if k > 0 {
            lemma_record_line_reads_written(rest, (k - 1) as nat);
        }
    }
}

} // verus!
