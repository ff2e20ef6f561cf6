use vstd::prelude::*;
use vstd::pervasive::VecAdditionalExecFns;
use crate::{Cell, Direction, opposite_spec};
use crate::city::{cell_index_spec, City, Road};

verus! {

/// One parsed instruction of the map text.
#[derive(Clone, Copy, Debug, PartialEq, Eq, Structural)]
pub enum Transaction {
    AddRoad(Road),
    AddSource(usize, Cell),
    AddDestination(usize, Cell),
    AddTrafficLight(usize, Cell),
}

/// The direction a map symbol names.
pub open spec fn direction_of_symbol(c: char) -> Direction {
    if c == '^' {
        Direction::North
    } else if c == '>' {
        Direction::East
    } else if c == 'v' {
        Direction::South
    } else {
        Direction::West
    }
}

/// Whether `c` names a single direction.
pub open spec fn is_dir_char(c: char) -> bool {
    c == '^' || c == '>' || c == 'v' || c == '<'
}

/// Whether `c` may stand for a road end: a direction or the wildcard.
pub open spec fn is_road_char(c: char) -> bool {
    is_dir_char(c) || c == '*'
}

pub open spec fn is_digit(c: char) -> bool {
    '0' <= c && c <= '9'
}

/// The number the digit run denotes.
pub open spec fn digits_val(s: Seq<char>) -> int
    decreases s.len(),
{
    if s.len() == 0 {
        0
    } else {
        digits_val(s.drop_last()) * 10 + (s.last() as int - '0' as int)
    }
}

/// The directions a road-end symbol stands for: all four for the wildcard.
pub open spec fn symbol_dirs(c: char) -> Seq<Direction> {
    if c == '*' {
        seq![Direction::North, Direction::East, Direction::South, Direction::West]
    } else {
        seq![direction_of_symbol(c)]
    }
}

/// The road transactions of one entry direction against the first `k`
/// exits, skipping U-turns.
pub open spec fn road_txns_exits(
    x: usize,
    y: usize,
    entry: Direction,
    exits: Seq<Direction>,
    k: int,
) -> Seq<Transaction>
    decreases k,
{
    if k <= 0 {
        Seq::empty()
    } else {
        road_txns_exits(x, y, entry, exits, k - 1) + (if entry != opposite_spec(exits[k - 1]) {
            seq![Transaction::AddRoad(Road { x, y, entry, exit: exits[k - 1] })]
        } else {
            Seq::empty()
        })
    }
}

/// The road transactions of the first `k` entries against all exits.
pub open spec fn road_txns(
    x: usize,
    y: usize,
    entries: Seq<Direction>,
    exits: Seq<Direction>,
    k: int,
) -> Seq<Transaction>
    decreases k,
{
    if k <= 0 {
        Seq::empty()
    } else {
        road_txns(x, y, entries, exits, k - 1) + road_txns_exits(
            x,
            y,
            entries[k - 1],
            exits,
            exits.len() as int,
        )
    }
}

/// Whether the symbol text is one the map grammar accepts.
pub open spec fn valid_symbol(s: Seq<char>) -> bool {
    ||| s.len() == 0
    ||| (s.len() >= 2 && is_road_char(s[0]) && is_road_char(s[1]))
    ||| (s.len() >= 3 && (s[0] == 'S' || s[0] == 'D' || s[0] == 'T') && is_dir_char(s[1]) && (
    forall|i: int| 2 <= i < s.len() ==> is_digit(#[trigger] s[i])) && digits_val(
        s.subrange(2, s.len() as int),
    ) < usize::MAX)
}

/// The transactions one symbol denotes.
pub open spec fn symbol_txns(x: usize, y: usize, s: Seq<char>) -> Seq<Transaction> {
    if s.len() == 0 {
        Seq::empty()
    } else if is_road_char(s[0]) && is_road_char(s[1]) {
        road_txns(x, y, symbol_dirs(s[0]), symbol_dirs(s[1]), symbol_dirs(s[0]).len() as int)
    } else {
        let group = digits_val(s.subrange(2, s.len() as int)) as usize;
        let cell = Cell { x, y, d: direction_of_symbol(s[1]) };
        if s[0] == 'S' {
            seq![Transaction::AddSource(group, cell)]
        } else if s[0] == 'D' {
            seq![Transaction::AddDestination(group, cell)]
        } else {
            seq![Transaction::AddTrafficLight(group, cell)]
        }
    }
}

/// The index of the first `d` in `s`, or the length when none occurs.
pub open spec fn first_at(s: Seq<char>, d: char) -> int
    decreases s.len(),
{
    if s.len() == 0 {
        0
    } else if s[0] == d {
        0
    } else {
        1 + first_at(s.subrange(1, s.len() as int), d)
    }
}

proof fn lemma_first_at_bounds(s: Seq<char>, d: char)
    ensures
        0 <= first_at(s, d) <= s.len(),
        first_at(s, d) < s.len() ==> s[first_at(s, d)] == d,
        forall|t: int| 0 <= t < first_at(s, d) ==> s[t] != d,
    decreases s.len(),
{
    if s.len() > 0 && s[0] != d {
        lemma_first_at_bounds(s.subrange(1, s.len() as int), d);
        assert forall|t: int| 0 <= t < first_at(s, d) implies s[t] != d by {
            if t > 0 {
                assert(s.subrange(1, s.len() as int)[t - 1] == s[t]);
            }
        }
        if first_at(s, d) < s.len() {
            assert(s.subrange(1, s.len() as int)[first_at(s, d) - 1] == s[first_at(s, d)]);
        }
    }
}

proof fn lemma_first_at_is(s: Seq<char>, d: char, k: int)
    requires
        0 <= k <= s.len(),
        forall|t: int| 0 <= t < k ==> s[t] != d,
        k < s.len() ==> s[k] == d,
    ensures
        first_at(s, d) == k,
{
    lemma_first_at_bounds(s, d);
    let f = first_at(s, d);
    if f < k {
        assert(s[f] == d);
        assert(s[f] != d);
    } else if k < f {
        assert(s[k] != d);
    }
}

/// The transactions of one comma-separated cell: its space-separated
/// symbols in order.
pub open spec fn cell_txns(x: usize, y: usize, s: Seq<char>) -> Seq<Transaction>
    decreases s.len(),
    via cell_txns_dec
{
    let f = first_at(s, ' ');
    if f >= s.len() {
        symbol_txns(x, y, s)
    } else {
        symbol_txns(x, y, s.take(f)) + cell_txns(x, y, s.subrange(f + 1, s.len() as int))
    }
}

/// Every symbol of the cell is valid.
pub open spec fn valid_cell(s: Seq<char>) -> bool
    decreases s.len(),
    via valid_cell_dec
{
    let f = first_at(s, ' ');
    if f >= s.len() {
        valid_symbol(s)
    } else {
        valid_symbol(s.take(f)) && valid_cell(s.subrange(f + 1, s.len() as int))
    }
}

/// The transactions of one row: its cells at increasing `x` from `x0`.
pub open spec fn row_txns(x0: usize, y: usize, s: Seq<char>) -> Seq<Transaction>
    decreases s.len(),
    via row_txns_dec
{
    let f = first_at(s, ',');
    if f >= s.len() {
        cell_txns(x0, y, s)
    } else {
        cell_txns(x0, y, s.take(f)) + row_txns((x0 + 1) as usize, y, s.subrange(f + 1, s.len() as int))
    }
}

pub open spec fn valid_row(s: Seq<char>, x0: int) -> bool
    decreases s.len(),
    via valid_row_dec
{
    let f = first_at(s, ',');
    if f >= s.len() {
        valid_cell(s) && x0 < usize::MAX
    } else {
        valid_cell(s.take(f)) && x0 < usize::MAX && valid_row(s.subrange(f + 1, s.len() as int), x0 + 1)
    }
}

/// The transactions of the whole text: its rows at increasing `y` from
/// `y0`.
pub open spec fn map_txns(y0: usize, s: Seq<char>) -> Seq<Transaction>
    decreases s.len(),
    via map_txns_dec
{
    let f = first_at(s, '\n');
    if f >= s.len() {
        row_txns(0, y0, s)
    } else {
        row_txns(0, y0, s.take(f)) + map_txns((y0 + 1) as usize, s.subrange(f + 1, s.len() as int))
    }
}

pub open spec fn valid_map(s: Seq<char>, y0: int) -> bool
    decreases s.len(),
    via valid_map_dec
{
    let f = first_at(s, '\n');
    if f >= s.len() {
        valid_row(s, 0) && y0 < usize::MAX
    } else {
        valid_row(s.take(f), 0) && y0 < usize::MAX && valid_map(s.subrange(f + 1, s.len() as int), y0 + 1)
    }
}


#[via_fn]
proof fn cell_txns_dec(x: usize, y: usize, s: Seq<char>) {
    lemma_first_at_bounds(s, ' ');
}

#[via_fn]
proof fn valid_cell_dec(s: Seq<char>) {
    lemma_first_at_bounds(s, ' ');
}

#[via_fn]
proof fn row_txns_dec(x0: usize, y: usize, s: Seq<char>) {
    lemma_first_at_bounds(s, ',');
}

#[via_fn]
proof fn valid_row_dec(s: Seq<char>, x0: int) {
    lemma_first_at_bounds(s, ',');
}

#[via_fn]
proof fn map_txns_dec(y0: usize, s: Seq<char>) {
    lemma_first_at_bounds(s, '\n');
}

#[via_fn]
proof fn valid_map_dec(s: Seq<char>, y0: int) {
    lemma_first_at_bounds(s, '\n');
}

fn chars_of(text: &str) -> (r: Vec<char>)
    ensures
        r@ == text@,
{
    let n = text.unicode_len();
    let mut out: Vec<char> = Vec::new();
    let mut i: usize = 0;
    while i < n
        invariant
            i <= n,
            n == text@.len(),
            out@ == text@.take(i as int),
        decreases n - i,
    {
        let c = text.get_char(i);
        out.push(c);
        proof {
            assert(out@ =~= text@.take(i + 1));
        }
        i = i + 1;
    }
    proof {
        assert(text@.take(text@.len() as int) =~= text@);
    }
    out
}

/// The direction a symbol character names.  Any other character is a map
/// error, which aborts loading, so it is ruled out here.
pub fn get_direction(character: char) -> (r: Direction)
    requires
        is_dir_char(character),
    ensures
        r == direction_of_symbol(character),
{
    if character == '^' {
        Direction::North
    } else if character == '>' {
        Direction::East
    } else if character == 'v' {
        Direction::South
    } else {
        Direction::West
    }
}

pub fn is_valid_destination_symbol(symbol: &char) -> (r: bool)
    ensures
        r == is_road_char(*symbol),
{
    let c = *symbol;
    c == '^' || c == '>' || c == 'v' || c == '<' || c == '*'
}

fn dirs_of_symbol(c: char) -> (r: Vec<Direction>)
    requires
        is_road_char(c),
    ensures
        r@ == symbol_dirs(c),
{
    let mut out: Vec<Direction> = Vec::new();
    if c == '*' {
        out.push(Direction::North);
        out.push(Direction::East);
        out.push(Direction::South);
        out.push(Direction::West);
        proof {
            assert(out@ =~= symbol_dirs(c));
        }
    } else {
        out.push(get_direction(c));
        proof {
            assert(out@ =~= symbol_dirs(c));
        }
    }
    out
}

/// The expansion of a two-character road symbol: the cross product of its
/// entry and exit directions, without U-turns.
pub fn parse_road(x: usize, y: usize, entry_symbol: char, exit_symbol: char) -> (r: Vec<
    Transaction>)
    requires
        is_road_char(entry_symbol),
        is_road_char(exit_symbol),
    ensures
        r@ == road_txns(
            x,
            y,
            symbol_dirs(entry_symbol),
            symbol_dirs(exit_symbol),
            symbol_dirs(entry_symbol).len() as int,
        ),
{
    let entries = dirs_of_symbol(entry_symbol);
    let exits = dirs_of_symbol(exit_symbol);
    let mut out: Vec<Transaction> = Vec::new();
    let mut i: usize = 0;
    while i < entries.len()
        invariant
            i <= entries@.len(),
            entries@ == symbol_dirs(entry_symbol),
            exits@ == symbol_dirs(exit_symbol),
            out@ == road_txns(x, y, entries@, exits@, i as int),
        decreases entries@.len() - i,
    {
        let entry = entries[i];
        let mut j: usize = 0;
        while j < exits.len()
            invariant
                j <= exits@.len(),
                i < entries@.len(),
                entry == entries@[i as int],
                entries@ == symbol_dirs(entry_symbol),
                exits@ == symbol_dirs(exit_symbol),
                out@ == road_txns(x, y, entries@, exits@, i as int) + road_txns_exits(
                    x,
                    y,
                    entry,
                    exits@,
                    j as int,
                ),
            decreases exits@.len() - j,
        {
            let exit = exits[j];
            if !(entry == crate::get_opposite(&exit)) {
                out.push(Transaction::AddRoad(Road { x, y, entry, exit }));
                proof {
                    assert(out@ =~= road_txns(x, y, entries@, exits@, i as int)
                        + road_txns_exits(x, y, entry, exits@, j + 1));
                }
            } else {
                proof {
                    assert(out@ =~= road_txns(x, y, entries@, exits@, i as int)
                        + road_txns_exits(x, y, entry, exits@, j + 1));
                }
            }
            j = j + 1;
        }
        proof {
            assert(out@ =~= road_txns(x, y, entries@, exits@, i + 1));
        }
        i = i + 1;
    }
    out
}

pub fn parse_source(x: usize, y: usize, direction: char, group: usize) -> (r: Transaction)
    requires
        is_dir_char(direction),
    ensures
        r == Transaction::AddSource(group, Cell { x, y, d: direction_of_symbol(direction) }),
{
    let d = get_direction(direction);
    Transaction::AddSource(group, Cell { x, y, d })
}

pub fn parse_destination(x: usize, y: usize, direction: char, group: usize) -> (r: Transaction)
    requires
        is_dir_char(direction),
    ensures
        r == Transaction::AddDestination(group, Cell { x, y, d: direction_of_symbol(direction) }),
{
    let d = get_direction(direction);
    Transaction::AddDestination(group, Cell { x, y, d })
}

pub fn parse_traffic_light(x: usize, y: usize, direction: char, group: usize) -> (r: Transaction)
    requires
        is_dir_char(direction),
    ensures
        r == Transaction::AddTrafficLight(group, Cell { x, y, d: direction_of_symbol(direction) }),
{
    let d = get_direction(direction);
    Transaction::AddTrafficLight(group, Cell { x, y, d })
}

proof fn lemma_digits_val_take_step(s: Seq<char>, k: int)
    requires
        0 <= k < s.len(),
    ensures
        digits_val(s.take(k + 1)) == digits_val(s.take(k)) * 10 + (s[k] as int - '0' as int),
{
    assert(s.take(k + 1).drop_last() =~= s.take(k));
    assert(s.take(k + 1).last() == s[k]);
}

proof fn lemma_digits_val_bounds(s: Seq<char>, k: int)
    requires
        0 <= k <= s.len(),
        forall|i: int| 0 <= i < s.len() ==> is_digit(#[trigger] s[i]),
    ensures
        0 <= digits_val(s.take(k)),
        digits_val(s.take(k)) <= digits_val(s),
    decreases s.len() - k,
{
    if k == s.len() {
        assert(s.take(k) =~= s);
        lemma_digits_nonneg(s);
    } else {
        lemma_digits_val_take_step(s, k);
        lemma_digits_val_bounds(s, k + 1);
        lemma_digits_nonneg(s.take(k));
    }
}

proof fn lemma_digits_nonneg(s: Seq<char>)
    ensures
        (forall|i: int| 0 <= i < s.len() ==> is_digit(#[trigger] s[i])) ==> digits_val(s) >= 0,
    decreases s.len(),
{
    if s.len() > 0 {
        lemma_digits_nonneg(s.drop_last());
        assert(forall|i: int|
            0 <= i < s.len() - 1 ==> s.drop_last()[i] == (#[trigger] s[i]));
    }
}

fn parse_group(cs: &Vec<char>, start: usize, end: usize) -> (r: usize)
    requires
        start <= end <= cs@.len(),
        forall|i: int|
            0 <= i < cs@.subrange(start as int, end as int).len() ==> is_digit(
                #[trigger] cs@.subrange(start as int, end as int)[i],
            ),
        digits_val(cs@.subrange(start as int, end as int)) < usize::MAX,
    ensures
        r == digits_val(cs@.subrange(start as int, end as int)),
{
    let ghost digits = cs@.subrange(start as int, end as int);
    let mut acc: usize = 0;
    let mut i: usize = start;
    while i < end
        invariant
            start <= i <= end,
            end <= cs@.len(),
            digits == cs@.subrange(start as int, end as int),
            forall|t: int| 0 <= t < digits.len() ==> is_digit(#[trigger] digits[t]),
            digits_val(digits) < usize::MAX,
            acc == digits_val(digits.take(i - start)),
        decreases end - i,
    {
        let c = cs[i];
        proof {
            assert(digits[i - start] == cs@[i as int]);
            assert(is_digit(c));
            lemma_digits_val_take_step(digits, i - start);
            lemma_digits_val_bounds(digits, i - start + 1);
        }
        let d = (c as u32 - '0' as u32) as usize;
        acc = acc * 10 + d;
        i = i + 1;
    }
    proof {
        assert(digits.take(digits.len() as int) =~= digits);
    }
    acc
}

fn parse_symbol_range(x: usize, y: usize, cs: &Vec<char>, start: usize, end: usize) -> (r: Vec<
    Transaction>)
    requires
        start <= end <= cs@.len(),
        valid_symbol(cs@.subrange(start as int, end as int)),
    ensures
        r@ == symbol_txns(x, y, cs@.subrange(start as int, end as int)),
{
    let ghost s = cs@.subrange(start as int, end as int);
    if end == start {
        let out: Vec<Transaction> = Vec::new();
        return out;
    }
    let c0 = cs[start];
    let c1 = cs[start + 1];
    proof {
        assert(s[0] == cs@[start as int]);
        assert(s[1] == cs@[start as int + 1]);
    }
    if is_valid_destination_symbol(&c0) && is_valid_destination_symbol(&c1) {
        parse_road(x, y, c0, c1)
    } else {
        proof {
            assert(s.subrange(2, s.len() as int) =~= cs@.subrange(start as int + 2, end as int));
        }
        let group = parse_group(cs, start + 2, end);
        if c0 == 'S' {
            let mut out: Vec<Transaction> = Vec::new();
            out.push(parse_source(x, y, c1, group));
            proof {
                assert(out@ =~= symbol_txns(x, y, s));
            }
            out
        } else if c0 == 'D' {
            let mut out: Vec<Transaction> = Vec::new();
            out.push(parse_destination(x, y, c1, group));
            proof {
                assert(out@ =~= symbol_txns(x, y, s));
            }
            out
        } else {
            let mut out: Vec<Transaction> = Vec::new();
            out.push(parse_traffic_light(x, y, c1, group));
            proof {
                assert(out@ =~= symbol_txns(x, y, s));
            }
            out
        }
    }
}

fn find_next(cs: &Vec<char>, start: usize, end: usize, d: char) -> (r: usize)
    requires
        start <= end <= cs@.len(),
    ensures
        start <= r <= end,
        r - start == first_at(cs@.subrange(start as int, end as int), d),
{
    let mut i: usize = start;
    while i < end
        invariant
            start <= i <= end,
            end <= cs@.len(),
            forall|t: int| start <= t < i ==> cs@[t] != d,
        decreases end - i,
    {
        if cs[i] == d {
            proof {
                let s = cs@.subrange(start as int, end as int);
                assert forall|t: int| 0 <= t < i - start implies s[t] != d by {
                    assert(s[t] == cs@[start + t]);
                }
                assert(s[i - start] == cs@[i as int]);
                lemma_first_at_is(s, d, i - start);
            }
            return i;
        }
        i = i + 1;
    }
    proof {
        let s = cs@.subrange(start as int, end as int);
        assert forall|t: int| 0 <= t < end - start implies s[t] != d by {
            assert(s[t] == cs@[start + t]);
        }
        lemma_first_at_is(s, d, end - start);
    }
    end
}

fn parse_cell_range(x: usize, y: usize, cs: &Vec<char>, start: usize, end: usize) -> (r: Vec<
    Transaction>)
    requires
        start <= end <= cs@.len(),
        valid_cell(cs@.subrange(start as int, end as int)),
    ensures
        r@ == cell_txns(x, y, cs@.subrange(start as int, end as int)),
    decreases end - start,
{
    let ghost s = cs@.subrange(start as int, end as int);
    let f = find_next(cs, start, end, ' ');
    if f == end {
        proof {
            assert(first_at(s, ' ') == s.len());
        }
        parse_symbol_range(x, y, cs, start, end)
    } else {
        proof {
            assert(s.take(first_at(s, ' ')) =~= cs@.subrange(start as int, f as int));
            assert(s.subrange(first_at(s, ' ') + 1, s.len() as int) =~= cs@.subrange(
                f as int + 1,
                end as int,
            ));
        }
        let mut out = parse_symbol_range(x, y, cs, start, f);
        let mut rest = parse_cell_range(x, y, cs, f + 1, end);
        out.append(&mut rest);
        out
    }
}

fn parse_row_range(x0: usize, y: usize, cs: &Vec<char>, start: usize, end: usize) -> (r: Vec<
    Transaction>)
    requires
        start <= end <= cs@.len(),
        valid_row(cs@.subrange(start as int, end as int), x0 as int),
    ensures
        r@ == row_txns(x0, y, cs@.subrange(start as int, end as int)),
    decreases end - start,
{
    let ghost s = cs@.subrange(start as int, end as int);
    let f = find_next(cs, start, end, ',');
    if f == end {
        proof {
            assert(first_at(s, ',') == s.len());
        }
        parse_cell_range(x0, y, cs, start, end)
    } else {
        proof {
            assert(s.take(first_at(s, ',')) =~= cs@.subrange(start as int, f as int));
            assert(s.subrange(first_at(s, ',') + 1, s.len() as int) =~= cs@.subrange(
                f as int + 1,
                end as int,
            ));
        }
        let mut out = parse_cell_range(x0, y, cs, start, f);
        let mut rest = parse_row_range(x0 + 1, y, cs, f + 1, end);
        out.append(&mut rest);
        out
    }
}

fn parse_map_range(y0: usize, cs: &Vec<char>, start: usize, end: usize) -> (r: Vec<Transaction>)
    requires
        start <= end <= cs@.len(),
        valid_map(cs@.subrange(start as int, end as int), y0 as int),
    ensures
        r@ == map_txns(y0, cs@.subrange(start as int, end as int)),
    decreases end - start,
{
    let ghost s = cs@.subrange(start as int, end as int);
    let f = find_next(cs, start, end, '\n');
    if f == end {
        proof {
            assert(first_at(s, '\n') == s.len());
        }
        parse_row_range(0, y0, cs, start, end)
    } else {
        proof {
            assert(s.take(first_at(s, '\n')) =~= cs@.subrange(start as int, f as int));
            assert(s.subrange(first_at(s, '\n') + 1, s.len() as int) =~= cs@.subrange(
                f as int + 1,
                end as int,
            ));
        }
        let mut out = parse_row_range(0, y0, cs, start, f);
        let mut rest = parse_map_range(y0 + 1, cs, f + 1, end);
        out.append(&mut rest);
        out
    }
}

/// All transactions of the map text, row by row, cell by cell, symbol by
/// symbol.
pub fn parse_map(text: &str) -> (r: Vec<Transaction>)
    requires
        valid_map(text@, 0),
    ensures
        r@ == map_txns(0, text@),
{
    let cs = chars_of(text);
    proof {
        assert(cs@.subrange(0, cs@.len() as int) =~= text@);
    }
    parse_map_range(0, &cs, 0, cs.len())
}

/// The transactions of one row of the map text.
pub fn parse_row(y: usize, text: &str) -> (r: Vec<Transaction>)
    requires
        valid_row(text@, 0),
    ensures
        r@ == row_txns(0, y, text@),
{
    let cs = chars_of(text);
    proof {
        assert(cs@.subrange(0, cs@.len() as int) =~= text@);
    }
    parse_row_range(0, y, &cs, 0, cs.len())
}

/// The transactions of one cell of the map text.
pub fn parse_cell(x: usize, y: usize, text: &str) -> (r: Vec<Transaction>)
    requires
        valid_cell(text@),
    ensures
        r@ == cell_txns(x, y, text@),
{
    let cs = chars_of(text);
    proof {
        assert(cs@.subrange(0, cs@.len() as int) =~= text@);
    }
    parse_cell_range(x, y, &cs, 0, cs.len())
}

/// The transactions of one symbol.
pub fn parse_symbol(x: usize, y: usize, text: &str) -> (r: Vec<Transaction>)
    requires
        valid_symbol(text@),
    ensures
        r@ == symbol_txns(x, y, text@),
{
    let cs = chars_of(text);
    proof {
        assert(cs@.subrange(0, cs@.len() as int) =~= text@);
    }
    parse_symbol_range(x, y, &cs, 0, cs.len())
}

/// The roads the transactions add, in order.
pub open spec fn roads_of(txns: Seq<Transaction>) -> Seq<Road>
    decreases txns.len(),
{
    if txns.len() == 0 {
        Seq::empty()
    } else {
        roads_of(txns.drop_last()) + (match txns.last() {
            Transaction::AddRoad(r) => seq![r],
            _ => Seq::empty(),
        })
    }
}

/// The node indices the transactions add to source group `g`, in order.
pub open spec fn sources_in(txns: Seq<Transaction>, g: int, width: int) -> Seq<usize>
    decreases txns.len(),
{
    if txns.len() == 0 {
        Seq::empty()
    } else {
        sources_in(txns.drop_last(), g, width) + (match txns.last() {
            Transaction::AddSource(g2, cell) => if g2 == g {
                seq![cell_index_spec(cell, width) as usize]
            } else {
                Seq::empty()
            },
            _ => Seq::empty(),
        })
    }
}

/// The node indices the transactions add to destination group `g`.
pub open spec fn destinations_in(txns: Seq<Transaction>, g: int, width: int) -> Seq<usize>
    decreases txns.len(),
{
    if txns.len() == 0 {
        Seq::empty()
    } else {
        destinations_in(txns.drop_last(), g, width) + (match txns.last() {
            Transaction::AddDestination(g2, cell) => if g2 == g {
                seq![cell_index_spec(cell, width) as usize]
            } else {
                Seq::empty()
            },
            _ => Seq::empty(),
        })
    }
}

/// The node indices the transactions add to light group `g`.
pub open spec fn lights_in(txns: Seq<Transaction>, g: int, width: int) -> Seq<usize>
    decreases txns.len(),
{
    if txns.len() == 0 {
        Seq::empty()
    } else {
        lights_in(txns.drop_last(), g, width) + (match txns.last() {
            Transaction::AddTrafficLight(g2, cell) => if g2 == g {
                seq![cell_index_spec(cell, width) as usize]
            } else {
                Seq::empty()
            },
            _ => Seq::empty(),
        })
    }
}

/// One more than the highest source group named, or zero with none named.
pub open spec fn source_bound(txns: Seq<Transaction>) -> int
    decreases txns.len(),
{
    if txns.len() == 0 {
        0
    } else {
        let rest = source_bound(txns.drop_last());
        match txns.last() {
            Transaction::AddSource(g, _) => if g + 1 > rest {
                g + 1
            } else {
                rest
            },
            _ => rest,
        }
    }
}

/// One more than the highest destination group named.
pub open spec fn destination_bound(txns: Seq<Transaction>) -> int
    decreases txns.len(),
{
    if txns.len() == 0 {
        0
    } else {
        let rest = destination_bound(txns.drop_last());
        match txns.last() {
            Transaction::AddDestination(g, _) => if g + 1 > rest {
                g + 1
            } else {
                rest
            },
            _ => rest,
        }
    }
}

/// One more than the highest light group named.
pub open spec fn light_bound(txns: Seq<Transaction>) -> int
    decreases txns.len(),
{
    if txns.len() == 0 {
        0
    } else {
        let rest = light_bound(txns.drop_last());
        match txns.last() {
            Transaction::AddTrafficLight(g, _) => if g + 1 > rest {
                g + 1
            } else {
                rest
            },
            _ => rest,
        }
    }
}

/// Whether a transaction fits the map: its cell lies on it and its group
/// number leaves room for the group count.
pub open spec fn txn_ok(t: Transaction, width: int, height: int) -> bool {
    match t {
        Transaction::AddRoad(r) => r.x < width && r.y < height,
        Transaction::AddSource(g, cell) => g < usize::MAX && cell.x < width && cell.y < height,
        Transaction::AddDestination(g, cell) => g < usize::MAX && cell.x < width && cell.y
            < height,
        Transaction::AddTrafficLight(g, cell) => g < usize::MAX && cell.x < width && cell.y
            < height,
    }
}

/// How often `d` occurs in `s`.
pub open spec fn count_char(s: Seq<char>, d: char) -> int
    decreases s.len(),
{
    if s.len() == 0 {
        0
    } else {
        count_char(s.drop_last(), d) + if s.last() == d {
            1int
        } else {
            0int
        }
    }
}

/// The column count of the map text: one more than the commas of its first
/// line.
pub open spec fn width_of(s: Seq<char>) -> int {
    count_char(s.take(first_at(s, '\n')), ',') + 1
}

/// The row count of the map text: one more than its line breaks.
pub open spec fn height_of(s: Seq<char>) -> int {
    count_char(s, '\n') + 1
}

proof fn lemma_count_char_take_step(s: Seq<char>, d: char, k: int)
    requires
        0 <= k < s.len(),
    ensures
        count_char(s.take(k + 1), d) == count_char(s.take(k), d) + if s[k] == d {
            1int
        } else {
            0int
        },
{
    assert(s.take(k + 1).drop_last() =~= s.take(k));
    assert(s.take(k + 1).last() == s[k]);
}

proof fn lemma_count_char_bounds(s: Seq<char>, d: char)
    ensures
        0 <= count_char(s, d) <= s.len(),
    decreases s.len(),
{
    if s.len() > 0 {
        lemma_count_char_bounds(s.drop_last(), d);
    }
}

fn count_char_range(cs: &Vec<char>, start: usize, end: usize, d: char) -> (r: usize)
    requires
        start <= end <= cs@.len(),
    ensures
        r == count_char(cs@.subrange(start as int, end as int), d),
        r <= end - start,
{
    let ghost s = cs@.subrange(start as int, end as int);
    let mut count: usize = 0;
    let mut i: usize = start;
    while i < end
        invariant
            start <= i <= end,
            end <= cs@.len(),
            s == cs@.subrange(start as int, end as int),
            count == count_char(s.take(i - start), d),
            count <= i - start,
        decreases end - i,
    {
        proof {
            lemma_count_char_take_step(s, d, i - start);
            assert(s[i - start] == cs@[i as int]);
        }
        if cs[i] == d {
            count = count + 1;
        }
        i = i + 1;
    }
    proof {
        assert(s.take(s.len() as int) =~= s);
    }
    count
}

/// Applies one parsed instruction to the city under construction.
pub fn apply(transaction: Transaction, city: City) -> (r: City)
    requires
        city.width >= 1,
        city.height >= 1,
        4 * city.width * city.height <= usize::MAX,
        txn_ok(transaction, city.width as int, city.height as int),
        match transaction {
            Transaction::AddRoad(_) => true,
            Transaction::AddSource(g, _) => g < city.sources@.len(),
            Transaction::AddDestination(g, _) => g < city.destinations@.len(),
            Transaction::AddTrafficLight(g, _) => g < city.lights@.len(),
        },
    ensures
        r.id == city.id,
        r.width == city.width,
        r.height == city.height,
        match transaction {
            Transaction::AddRoad(road) => r.roads@ == city.roads@.push(road) && r.sources
                == city.sources && r.destinations == city.destinations && r.lights == city.lights,
            Transaction::AddSource(g, cell) => r.roads == city.roads && r.sources@.len()
                == city.sources@.len() && r.sources@[g as int]@ == city.sources@[g as int]@.push(
                cell_index_spec(cell, city.width as int) as usize,
            ) && (forall|g2: int|
                0 <= g2 < city.sources@.len() && g2 != g ==> r.sources@[g2]
                    == city.sources@[g2]) && r.destinations == city.destinations && r.lights
                == city.lights,
            Transaction::AddDestination(g, cell) => r.roads == city.roads && r.sources
                == city.sources && r.destinations@.len() == city.destinations@.len()
                && r.destinations@[g as int]@ == city.destinations@[g as int]@.push(
                cell_index_spec(cell, city.width as int) as usize,
            ) && (forall|g2: int|
                0 <= g2 < city.destinations@.len() && g2 != g ==> r.destinations@[g2]
                    == city.destinations@[g2]) && r.lights == city.lights,
            Transaction::AddTrafficLight(g, cell) => r.roads == city.roads && r.sources
                == city.sources && r.destinations == city.destinations && r.lights@.len()
                == city.lights@.len() && r.lights@[g as int]@ == city.lights@[g as int]@.push(
                cell_index_spec(cell, city.width as int) as usize,
            ) && (forall|g2: int|
                0 <= g2 < city.lights@.len() && g2 != g ==> r.lights@[g2] == city.lights@[g2]),
        },
{
    let mut city = city;
    match transaction {
        Transaction::AddRoad(road) => {
            city.roads.push(road);
        },
        Transaction::AddSource(group, cell) => {
            let index = city.get_index(&cell);
            let mut bucket: Vec<usize> = Vec::new();
            city.sources.set_and_swap(group, &mut bucket);
            bucket.push(index);
            city.sources.set(group, bucket);
        },
        Transaction::AddDestination(group, cell) => {
            let index = city.get_index(&cell);
            let mut bucket: Vec<usize> = Vec::new();
            city.destinations.set_and_swap(group, &mut bucket);
            bucket.push(index);
            city.destinations.set(group, bucket);
        },
        Transaction::AddTrafficLight(group, cell) => {
            let index = city.get_index(&cell);
            let mut bucket: Vec<usize> = Vec::new();
            city.lights.set_and_swap(group, &mut bucket);
            bucket.push(index);
            city.lights.set(group, bucket);
        },
    }
    city
}

proof fn lemma_roads_of_take_step(txns: Seq<Transaction>, k: int)
    requires
        0 <= k < txns.len(),
    ensures
        roads_of(txns.take(k + 1)) == roads_of(txns.take(k)) + (match txns[k] {
            Transaction::AddRoad(r) => seq![r],
            _ => Seq::<Road>::empty(),
        }),
{
    assert(txns.take(k + 1).drop_last() =~= txns.take(k));
    assert(txns.take(k + 1).last() == txns[k]);
}

proof fn lemma_groups_take_step(txns: Seq<Transaction>, g: int, width: int, k: int)
    requires
        0 <= k < txns.len(),
    ensures
        sources_in(txns.take(k + 1), g, width) == sources_in(txns.take(k), g, width) + (
        match txns[k] {
            Transaction::AddSource(g2, cell) => if g2 == g {
                seq![cell_index_spec(cell, width) as usize]
            } else {
                Seq::<usize>::empty()
            },
            _ => Seq::<usize>::empty(),
        }),
        destinations_in(txns.take(k + 1), g, width) == destinations_in(txns.take(k), g, width) + (
        match txns[k] {
            Transaction::AddDestination(g2, cell) => if g2 == g {
                seq![cell_index_spec(cell, width) as usize]
            } else {
                Seq::<usize>::empty()
            },
            _ => Seq::<usize>::empty(),
        }),
        lights_in(txns.take(k + 1), g, width) == lights_in(txns.take(k), g, width) + (
        match txns[k] {
            Transaction::AddTrafficLight(g2, cell) => if g2 == g {
                seq![cell_index_spec(cell, width) as usize]
            } else {
                Seq::<usize>::empty()
            },
            _ => Seq::<usize>::empty(),
        }),
{
    assert(txns.take(k + 1).drop_last() =~= txns.take(k));
    assert(txns.take(k + 1).last() == txns[k]);
}

proof fn lemma_bounds_take_step(txns: Seq<Transaction>, k: int)
    requires
        0 <= k < txns.len(),
    ensures
        source_bound(txns.take(k + 1)) == (match txns[k] {
            Transaction::AddSource(g, _) => if g + 1 > source_bound(txns.take(k)) {
                g + 1
            } else {
                source_bound(txns.take(k))
            },
            _ => source_bound(txns.take(k)),
        }),
        destination_bound(txns.take(k + 1)) == (match txns[k] {
            Transaction::AddDestination(g, _) => if g + 1 > destination_bound(txns.take(k)) {
                g + 1
            } else {
                destination_bound(txns.take(k))
            },
            _ => destination_bound(txns.take(k)),
        }),
        light_bound(txns.take(k + 1)) == (match txns[k] {
            Transaction::AddTrafficLight(g, _) => if g + 1 > light_bound(txns.take(k)) {
                g + 1
            } else {
                light_bound(txns.take(k))
            },
            _ => light_bound(txns.take(k)),
        }),
{
    assert(txns.take(k + 1).drop_last() =~= txns.take(k));
    assert(txns.take(k + 1).last() == txns[k]);
}

/// Each group a transaction names lies under the matching bound.
proof fn lemma_bounds_cover(txns: Seq<Transaction>, k: int)
    requires
        0 <= k < txns.len(),
    ensures
        match txns[k] {
            Transaction::AddSource(g, _) => g + 1 <= source_bound(txns),
            Transaction::AddDestination(g, _) => g + 1 <= destination_bound(txns),
            Transaction::AddTrafficLight(g, _) => g + 1 <= light_bound(txns),
            Transaction::AddRoad(_) => true,
        },
    decreases txns.len(),
{
    if k < txns.len() - 1 {
        lemma_bounds_cover(txns.drop_last(), k);
        lemma_bounds_monotone(txns);
    }
}

proof fn lemma_bounds_monotone(txns: Seq<Transaction>)
    requires
        txns.len() > 0,
    ensures
        source_bound(txns.drop_last()) <= source_bound(txns),
        destination_bound(txns.drop_last()) <= destination_bound(txns),
        light_bound(txns.drop_last()) <= light_bound(txns),
{
}

proof fn lemma_bounds_nonneg(txns: Seq<Transaction>)
    ensures
        0 <= source_bound(txns),
        0 <= destination_bound(txns),
        0 <= light_bound(txns),
    decreases txns.len(),
{
    if txns.len() > 0 {
        lemma_bounds_nonneg(txns.drop_last());
    }
}

fn empty_groups(n: usize) -> (r: Vec<Vec<usize>>)
    ensures
        r@.len() == n,
        forall|g: int| 0 <= g < n ==> (#[trigger] r@[g])@.len() == 0,
{
    let mut out: Vec<Vec<usize>> = Vec::new();
    let mut i: usize = 0;
    while i < n
        invariant
            i <= n,
            out@.len() == i,
            forall|g: int| 0 <= g < i ==> (#[trigger] out@[g])@.len() == 0,
        decreases n - i,
    {
        out.push(Vec::new());
        i = i + 1;
    }
    out
}

/// Builds the whole city from its map text: the dimensions come from the
/// line and comma layout, the group lists are sized to the highest group
/// named, and every parsed instruction is applied in order.
pub fn create_city(text: &str) -> (r: City)
    requires
        valid_map(text@, 0),
        text@.len() < usize::MAX,
        4 * width_of(text@) * height_of(text@) <= usize::MAX,
        forall|k: int|
            0 <= k < map_txns(0, text@).len() ==> txn_ok(
                #[trigger] map_txns(0, text@)[k],
                width_of(text@),
                height_of(text@),
            ),
    ensures
        r.id == 0,
        r.width == width_of(text@),
        r.height == height_of(text@),
        r.roads@ == roads_of(map_txns(0, text@)),
        r.sources@.len() == source_bound(map_txns(0, text@)),
        r.destinations@.len() == destination_bound(map_txns(0, text@)),
        r.lights@.len() == light_bound(map_txns(0, text@)),
        forall|g: int|
            0 <= g < r.sources@.len() ==> (#[trigger] r.sources@[g])@ == sources_in(
                map_txns(0, text@),
                g,
                width_of(text@),
            ),
        forall|g: int|
            0 <= g < r.destinations@.len() ==> (#[trigger] r.destinations@[g])@
                == destinations_in(map_txns(0, text@), g, width_of(text@)),
        forall|g: int|
            0 <= g < r.lights@.len() ==> (#[trigger] r.lights@[g])@ == lights_in(
                map_txns(0, text@),
                g,
                width_of(text@),
            ),
{
    let cs = chars_of(text);
    proof {
        assert(cs@.subrange(0, cs@.len() as int) =~= cs@);
    }
    let line_end = find_next(&cs, 0, cs.len(), '\n');
    proof {
        assert(cs@.take(first_at(cs@, '\n')) =~= cs@.subrange(0, line_end as int));
    }
    let width = count_char_range(&cs, 0, line_end, ',') + 1;
    let height = count_char_range(&cs, 0, cs.len(), '\n') + 1;
    let ghost txns_spec = map_txns(0, text@);
    let transactions = parse_map(text);
    let mut n_sources: usize = 0;
    let mut n_destinations: usize = 0;
    let mut n_lights: usize = 0;
    let mut k: usize = 0;
    while k < transactions.len()
        invariant
            k <= transactions@.len(),
            transactions@ == txns_spec,
            forall|t: int|
                0 <= t < txns_spec.len() ==> txn_ok(
                    #[trigger] txns_spec[t],
                    width_of(text@),
                    height_of(text@),
                ),
            n_sources == source_bound(txns_spec.take(k as int)),
            n_destinations == destination_bound(txns_spec.take(k as int)),
            n_lights == light_bound(txns_spec.take(k as int)),
        decreases transactions@.len() - k,
    {
        proof {
            lemma_bounds_take_step(txns_spec, k as int);
            lemma_bounds_nonneg(txns_spec.take(k as int));
        }
        let t = &transactions[k];
        match t {
            Transaction::AddSource(g, _) => {
                if *g + 1 > n_sources {
                    n_sources = *g + 1;
                }
            },
            Transaction::AddDestination(g, _) => {
                if *g + 1 > n_destinations {
                    n_destinations = *g + 1;
                }
            },
            Transaction::AddTrafficLight(g, _) => {
                if *g + 1 > n_lights {
                    n_lights = *g + 1;
                }
            },
            Transaction::AddRoad(_) => {},
        }
        k = k + 1;
    }
    proof {
        assert(txns_spec.take(txns_spec.len() as int) =~= txns_spec);
    }
    let mut city = City {
        id: 0,
        width,
        height,
        roads: Vec::new(),
        sources: empty_groups(n_sources),
        destinations: empty_groups(n_destinations),
        lights: empty_groups(n_lights),
    };
    let mut k2: usize = 0;
    while k2 < transactions.len()
        invariant
            k2 <= transactions@.len(),
            transactions@ == txns_spec,
            width == width_of(text@),
            height == height_of(text@),
            width >= 1,
            height >= 1,
            4 * width * height <= usize::MAX,
            forall|t: int|
                0 <= t < txns_spec.len() ==> txn_ok(
                    #[trigger] txns_spec[t],
                    width_of(text@),
                    height_of(text@),
                ),
            city.id == 0,
            city.width == width,
            city.height == height,
            city.sources@.len() == source_bound(txns_spec),
            city.destinations@.len() == destination_bound(txns_spec),
            city.lights@.len() == light_bound(txns_spec),
            city.roads@ == roads_of(txns_spec.take(k2 as int)),
            forall|g: int|
                0 <= g < city.sources@.len() ==> (#[trigger] city.sources@[g])@ == sources_in(
                    txns_spec.take(k2 as int),
                    g,
                    width as int,
                ),
            forall|g: int|
                0 <= g < city.destinations@.len() ==> (#[trigger] city.destinations@[g])@
                    == destinations_in(txns_spec.take(k2 as int), g, width as int),
            forall|g: int|
                0 <= g < city.lights@.len() ==> (#[trigger] city.lights@[g])@ == lights_in(
                    txns_spec.take(k2 as int),
                    g,
                    width as int,
                ),
        decreases transactions@.len() - k2,
    {
        let ghost pre = city;
        let t = transactions[k2];
        proof {
            assert(t == txns_spec[k2 as int]);
            lemma_bounds_cover(txns_spec, k2 as int);
            lemma_bounds_nonneg(txns_spec);
        }
        city = apply(t, city);
        proof {
            lemma_roads_of_take_step(txns_spec, k2 as int);
            assert forall|g: int|
                0 <= g < city.sources@.len() implies (#[trigger] city.sources@[g])@
                == sources_in(txns_spec.take(k2 + 1), g, width as int) by {
                lemma_groups_take_step(txns_spec, g, width as int, k2 as int);
            }
            assert forall|g: int|
                0 <= g < city.destinations@.len() implies (#[trigger] city.destinations@[g])@
                == destinations_in(txns_spec.take(k2 + 1), g, width as int) by {
                lemma_groups_take_step(txns_spec, g, width as int, k2 as int);
            }
            assert forall|g: int|
                0 <= g < city.lights@.len() implies (#[trigger] city.lights@[g])@ == lights_in(
                    txns_spec.take(k2 + 1),
                    g,
                    width as int,
                ) by {
                lemma_groups_take_step(txns_spec, g, width as int, k2 as int);
            }
            assert(city.roads@ =~= roads_of(txns_spec.take(k2 + 1)));
        }
        k2 = k2 + 1;
    }
    proof {
        assert(txns_spec.take(txns_spec.len() as int) =~= txns_spec);
    }
    city
}

fn valid_symbol_range(cs: &Vec<char>, start: usize, end: usize) -> (r: bool)
    requires
        start <= end <= cs@.len(),
    ensures
        r == valid_symbol(cs@.subrange(start as int, end as int)),
{
    let ghost s = cs@.subrange(start as int, end as int);
    if end == start {
        return true;
    }
    if end - start >= 2 {
        let c0 = cs[start];
        let c1 = cs[start + 1];
        proof {
            assert(s[0] == cs@[start as int]);
            assert(s[1] == cs@[start as int + 1]);
        }
        if is_valid_destination_symbol(&c0) && is_valid_destination_symbol(&c1) {
            return true;
        }
        if end - start >= 3 && (c0 == 'S' || c0 == 'D' || c0 == 'T') && (c1 == '^' || c1 == '>'
            || c1 == 'v' || c1 == '<') {
            // every remaining character must be a digit, and the number
            // they denote must leave room in a machine word
            let ghost digits = s.subrange(2, s.len() as int);
            let mut acc: u128 = 0;
            let mut i: usize = start + 2;
            while i < end
                invariant
                    start + 2 <= i <= end,
                    end <= cs@.len(),
                    s == cs@.subrange(start as int, end as int),
                    digits == s.subrange(2, s.len() as int),
                    s.len() >= 3,
                    !(is_road_char(s[0]) && is_road_char(s[1])),
                    s[0] == 'S' || s[0] == 'D' || s[0] == 'T',
                    is_dir_char(s[1]),
                    forall|t: int| 0 <= t < i - start - 2 ==> is_digit(#[trigger] digits[t]),
                    acc == digits_val(digits.take(i - start - 2)),
                    acc < usize::MAX as u128,
                decreases end - i,
            {
                let c = cs[i];
                proof {
                    assert(digits[i - start - 2] == cs@[i as int]);
                }
                if !(c >= '0' && c <= '9') {
                    proof {
                        assert(!is_digit(digits[i - start - 2]));
                        assert(s[i - start] == digits[i - start - 2]);
                    }
                    return false;
                }
                proof {
                    lemma_digits_val_take_step(digits, i - start - 2);
                }
                let d = (c as u32 - '0' as u32) as u128;
                acc = acc * 10 + d;
                i = i + 1;
                if acc >= usize::MAX as u128 {
                    proof {
                        // a digit prefix already reaches the bound, and
                        // appending digits never shrinks the value; rule
                        // the symbol out once the rest is known digital
                        assert(digits_val(digits.take(i - 2 - start)) >= usize::MAX);
                    }
                    let ghost seen = i - start - 2;
                    let mut i2: usize = i;
                    while i2 < end
                        invariant
                            start + 3 <= i <= i2 <= end,
                            end <= cs@.len(),
                            seen == i - start - 2,
                            s == cs@.subrange(start as int, end as int),
                            digits == s.subrange(2, s.len() as int),
                            s.len() >= 3,
                            !(is_road_char(s[0]) && is_road_char(s[1])),
                            s[0] == 'S' || s[0] == 'D' || s[0] == 'T',
                            is_dir_char(s[1]),
                            forall|t: int| 0 <= t < seen ==> is_digit(#[trigger] digits[t]),
                            digits_val(digits.take(seen)) >= usize::MAX,
                            forall|t: int|
                                seen <= t < i2 - start - 2 ==> is_digit(#[trigger] digits[t]),
                        decreases end - i2,
                    {
                        let c2 = cs[i2];
                        proof {
                            assert(digits[i2 - start - 2] == cs@[i2 as int]);
                        }
                        if !(c2 >= '0' && c2 <= '9') {
                            proof {
                                assert(!is_digit(digits[i2 - start - 2]));
                                assert(s[i2 - start] == digits[i2 - start - 2]);
                            }
                            return false;
                        }
                        i2 = i2 + 1;
                    }
                    proof {
                        assert forall|t: int| 0 <= t < digits.len() implies is_digit(
                            #[trigger] digits[t],
                        ) by {}
                        lemma_digits_val_bounds(digits, seen);
                        assert(digits_val(digits) >= usize::MAX);
                    }
                    return false;
                }
            }
            proof {
                assert(digits.take(digits.len() as int) =~= digits);
                assert forall|t: int| 2 <= t < s.len() implies is_digit(#[trigger] s[t]) by {
                    assert(digits[t - 2] == s[t]);
                }
            }
            return true;
        }
        return false;
    }
    let c0 = cs[start];
    proof {
        assert(s[0] == cs@[start as int]);
    }
    false
}

fn valid_cell_range(cs: &Vec<char>, start: usize, end: usize) -> (r: bool)
    requires
        start <= end <= cs@.len(),
    ensures
        r == valid_cell(cs@.subrange(start as int, end as int)),
    decreases end - start,
{
    let ghost s = cs@.subrange(start as int, end as int);
    let f = find_next(cs, start, end, ' ');
    if f == end {
        valid_symbol_range(cs, start, end)
    } else {
        proof {
            assert(s.take(first_at(s, ' ')) =~= cs@.subrange(start as int, f as int));
            assert(s.subrange(first_at(s, ' ') + 1, s.len() as int) =~= cs@.subrange(
                f as int + 1,
                end as int,
            ));
        }
        valid_symbol_range(cs, start, f) && valid_cell_range(cs, f + 1, end)
    }
}

fn valid_row_range(cs: &Vec<char>, start: usize, end: usize, x0: usize) -> (r: bool)
    requires
        start <= end <= cs@.len(),
    ensures
        r == valid_row(cs@.subrange(start as int, end as int), x0 as int),
    decreases end - start,
{
    let ghost s = cs@.subrange(start as int, end as int);
    let f = find_next(cs, start, end, ',');
    if f == end {
        valid_cell_range(cs, start, end) && x0 < usize::MAX
    } else {
        proof {
            assert(s.take(first_at(s, ',')) =~= cs@.subrange(start as int, f as int));
            assert(s.subrange(first_at(s, ',') + 1, s.len() as int) =~= cs@.subrange(
                f as int + 1,
                end as int,
            ));
        }
        if x0 >= usize::MAX {
            return false;
        }
        valid_cell_range(cs, start, f) && valid_row_range(cs, f + 1, end, x0 + 1)
    }
}

fn valid_map_range(cs: &Vec<char>, start: usize, end: usize, y0: usize) -> (r: bool)
    requires
        start <= end <= cs@.len(),
    ensures
        r == valid_map(cs@.subrange(start as int, end as int), y0 as int),
    decreases end - start,
{
    let ghost s = cs@.subrange(start as int, end as int);
    let f = find_next(cs, start, end, '\n');
    if f == end {
        valid_row_range(cs, start, end, 0) && y0 < usize::MAX
    } else {
        proof {
            assert(s.take(first_at(s, '\n')) =~= cs@.subrange(start as int, f as int));
            assert(s.subrange(first_at(s, '\n') + 1, s.len() as int) =~= cs@.subrange(
                f as int + 1,
                end as int,
            ));
        }
        if y0 >= usize::MAX {
            return false;
        }
        valid_row_range(cs, start, f, 0) && valid_map_range(cs, f + 1, end, y0 + 1)
    }
}

/// Decides whether `create_city` accepts the text: the grammar holds, the
/// map's node count fits a machine word, and every parsed instruction lies
/// on the map.  A text this accepts loads; any other aborts loading.
pub fn check_map(text: &str) -> (r: bool)
    ensures
        r == (valid_map(text@, 0) && text@.len() < usize::MAX && 4 * width_of(text@) * height_of(
            text@,
        ) <= usize::MAX && forall|k: int|
            0 <= k < map_txns(0, text@).len() ==> txn_ok(
                #[trigger] map_txns(0, text@)[k],
                width_of(text@),
                height_of(text@),
            )),
{
    let cs = chars_of(text);
    proof {
        assert(cs@.subrange(0, cs@.len() as int) =~= cs@);
    }
    let n = cs.len();
    if !valid_map_range(&cs, 0, n, 0) {
        return false;
    }
    if n >= usize::MAX {
        return false;
    }
    let line_end = find_next(&cs, 0, n, '\n');
    proof {
        assert(cs@.take(first_at(cs@, '\n')) =~= cs@.subrange(0, line_end as int));
    }
    let width = count_char_range(&cs, 0, line_end, ',') + 1;
    let height = count_char_range(&cs, 0, n, '\n') + 1;
    proof {
        assert((width as u128) * (height as u128) <= u128::MAX) by (nonlinear_arith)
            requires
                width <= usize::MAX,
                height <= usize::MAX,
        {}
    }
    let tiles = (width as u128) * (height as u128);
    if tiles > (usize::MAX as u128) / 4 {
        proof {
            assert(!(4 * width_of(text@) * height_of(text@) <= usize::MAX)) by (nonlinear_arith)
                requires
                    width_of(text@) == width,
                    height_of(text@) == height,
                    (width as u128) * (height as u128) > (usize::MAX as u128) / 4,
                    width >= 1,
                    height >= 1,
            {}
        }
        return false;
    }
    proof {
        assert(4 * width_of(text@) * height_of(text@) <= usize::MAX) by (nonlinear_arith)
            requires
                width_of(text@) == width,
                height_of(text@) == height,
                (width as u128) * (height as u128) <= (usize::MAX as u128) / 4,
                width >= 1,
                height >= 1,
        {}
    }
    let transactions = parse_map(text);
    let mut k: usize = 0;
    while k < transactions.len()
        invariant
            k <= transactions@.len(),
            transactions@ == map_txns(0, text@),
            width == width_of(text@),
            height == height_of(text@),
            forall|t: int|
                0 <= t < k ==> txn_ok(#[trigger] transactions@[t], width as int, height as int),
        decreases transactions@.len() - k,
    {
        let ok = match &transactions[k] {
            Transaction::AddRoad(r) => r.x < width && r.y < height,
            Transaction::AddSource(g, cell) => *g < usize::MAX && cell.x < width && cell.y
                < height,
            Transaction::AddDestination(g, cell) => *g < usize::MAX && cell.x < width && cell.y
                < height,
            Transaction::AddTrafficLight(g, cell) => *g < usize::MAX && cell.x < width && cell.y
                < height,
        };
        if !ok {
            return false;
        }
        k = k + 1;
    }
    true
}

} // verus!
