//! An almanac of range mappings: every seed is sent through a chain of
//! mappings to a location, and the least location is asked for.

use vstd::prelude::*;
use vstd::string::StringSliceAdditionalSpecFns;
use crate::text::{
    all_u64, block_end, lemma_block_end, lines, lines_of, number, parse_u64, read_u64s, u64s, views, words, words_of,
};

verus! {

/// One line of a mapping: the `range` numbers from `src` on are sent to the
/// numbers from `dst` on.
#[derive(Clone, Copy, Debug, PartialEq, Eq, Structural)]
pub struct RangeMap {
    pub dst: u64,
    pub src: u64,
    pub range: u64,
}

/// The seeds and the chain of mappings.
pub struct Input {
    pub seeds: Vec<u64>,
    pub range_mappings: Vec<Vec<RangeMap>>,
}

impl RangeMap {
    /// `x` lies in the source range.
    pub open spec fn covers(self, x: int) -> bool {
        self.src <= x < self.src + self.range
    }

    /// Where `x` is sent.
    pub open spec fn send(self, x: int) -> int {
        self.dst + (x - self.src)
    }
}

/// Where a mapping sends `x`: by its first line that covers `x`, or to `x`
/// itself when no line covers it. Only the first `n` lines are looked at.
pub open spec fn mapped(mapping: Seq<RangeMap>, x: int, n: int) -> int
    decreases n,
{
    if n <= 0 {
        x
    } else if exists|k: int| 0 <= k < n - 1 && (#[trigger] mapping[k]).covers(x) {
        mapped(mapping, x, n - 1)
    } else if mapping[n - 1].covers(x) {
        mapping[n - 1].send(x)
    } else {
        x
    }
}

/// Where the first `n` mappings of the chain send `x`, `None` when a value
/// on the way does not fit in a `u64`.
pub open spec fn location(chain: Seq<Vec<RangeMap>>, x: int, n: int) -> Option<int>
    decreases n,
{
    if n <= 0 {
        Some(x)
    } else {
        match location(chain, x, n - 1) {
            Some(v) => {
                let w = mapped(chain[n - 1]@, v, chain[n - 1]@.len() as int);
                if w <= u64::MAX {
                    Some(w)
                } else {
                    None
                }
            },
            None => None,
        }
    }
}

/// Sends `x` through one mapping. `None` when the result does not fit.
fn apply_mapping(mapping: &Vec<RangeMap>, x: u64) -> (r: Option<u64>)
    ensures
        r == {
            let w = mapped(mapping@, x as int, mapping@.len() as int);
            if w <= u64::MAX {
                Some(w as u64)
            } else {
                None
            }
        },
        mapped(mapping@, x as int, mapping@.len() as int) >= 0,
{
    let mut i: usize = 0;
    while i < mapping.len()
        invariant
            i <= mapping@.len(),
            forall|k: int| 0 <= k < i ==> !(#[trigger] mapping@[k]).covers(x as int),
            mapped(mapping@, x as int, i as int) == x,
        decreases mapping@.len() - i,
    {
        let m: RangeMap = mapping[i];
        if x >= m.src && x - m.src < m.range {
            assert(m.covers(x as int));
            proof {
                lemma_mapped_found(mapping@, x as int, i as int, mapping@.len() as int);
            }
            return m.dst.checked_add(x - m.src);
        }
        i += 1;
    }
    Some(x)
}

/// Once line `i` is the first to cover `x`, looking at more lines changes
/// nothing.
pub proof fn lemma_mapped_found(mapping: Seq<RangeMap>, x: int, i: int, n: int)
    requires
        0 <= i < n <= mapping.len(),
        forall|k: int| 0 <= k < i ==> !(#[trigger] mapping[k]).covers(x),
        mapping[i].covers(x),
    ensures
        mapped(mapping, x, n) == mapping[i].send(x),
    decreases n,
{
    if n - 1 > i {
        assert(0 <= i < n - 1 && mapping[i].covers(x));
        lemma_mapped_found(mapping, x, i, n - 1);
    }
}

/// Sends a seed through all mappings of the chain. `None` when a value on
/// the way does not fit in a `u64`.
pub fn find_location(input: &Input, seed: u64) -> (r: Option<u64>)
    ensures
        r == match location(input.range_mappings@, seed as int, input.range_mappings@.len() as int) {
            Some(v) => Some(v as u64),
            None => None,
        },
        location(input.range_mappings@, seed as int, input.range_mappings@.len() as int) matches Some(v) ==> 0 <= v
            <= u64::MAX,
{
    let mut cur: u64 = seed;
    let chain = &input.range_mappings;
    let mut i: usize = 0;
    while i < chain.len()
        invariant
            i <= chain@.len(),
            chain@ == input.range_mappings@,
            location(chain@, seed as int, i as int) == Some(cur as int),
        decreases chain@.len() - i,
    {
        match apply_mapping(&chain[i], cur) {
            Some(v) => {
                cur = v;
            },
            None => {
                proof {
                    lemma_location_none(chain@, seed as int, i + 1, chain@.len() as int);
                }
                return None;
            },
        }
        i += 1;
    }
    Some(cur)
}

/// Once a value on the way does not fit, no location is reached.
pub proof fn lemma_location_none(chain: Seq<Vec<RangeMap>>, x: int, i: int, n: int)
    requires
        0 <= i <= n,
        location(chain, x, i) is None,
    ensures
        location(chain, x, n) is None,
    decreases n - i,
{
    if i < n {
        lemma_location_none(chain, x, i, n - 1);
    }
}

/// The location of a seed through the whole chain.
pub open spec fn place(input: &Input, seed: int) -> Option<int> {
    location(input.range_mappings@, seed, input.range_mappings@.len() as int)
}

/// The least location among the first `n` seeds of `seeds`, `None` when
/// there is no seed or a seed has no location.
pub open spec fn least_of(input: &Input, seeds: Seq<u64>, n: int) -> Option<int>
    decreases n,
{
    if n <= 0 {
        None
    } else if n == 1 {
        place(input, seeds[0] as int)
    } else {
        match (least_of(input, seeds, n - 1), place(input, seeds[n - 1] as int)) {
            (Some(a), Some(b)) => Some(
                if b < a {
                    b
                } else {
                    a
                },
            ),
            _ => None,
        }
    }
}

/// Once some seed has no location, there is no least location.
pub proof fn lemma_least_none(input: &Input, seeds: Seq<u64>, i: int, n: int)
    requires
        1 <= i <= n,
        least_of(input, seeds, i) is None,
    ensures
        least_of(input, seeds, n) is None,
    decreases n - i,
{
    if i < n {
        lemma_least_none(input, seeds, i, n - 1);
    }
}

/// The least location that a seed of the input reaches. `None` when there
/// is no seed or a value on the way does not fit in a `u64`.
pub fn part_one(input: &Input) -> (r: Option<u64>)
    ensures
        r == match least_of(input, input.seeds@, input.seeds@.len() as int) {
            Some(v) => Some(v as u64),
            None => None,
        },
{
    if input.seeds.len() == 0 {
        return None;
    }
    let mut best: u64 = match find_location(input, input.seeds[0]) {
        Some(v) => v,
        None => {
            proof {
                lemma_least_none(input, input.seeds@, 1, input.seeds@.len() as int);
            }
            return None;
        },
    };
    let mut i: usize = 1;
    while i < input.seeds.len()
        invariant
            1 <= i <= input.seeds@.len(),
            least_of(input, input.seeds@, i as int) == Some(best as int),
        decreases input.seeds@.len() - i,
    {
        match find_location(input, input.seeds[i]) {
            Some(v) => {
                if v < best {
                    best = v;
                }
            },
            None => {
                proof {
                    lemma_least_none(input, input.seeds@, i + 1, input.seeds@.len() as int);
                }
                return None;
            },
        }
        i += 1;
    }
    Some(best)
}

/// The least location among the `n` seeds from `start` on, with `least` in
/// the place of no seed; `None` when a seed or a value on its way does not
/// fit in a `u64`.
pub open spec fn least_in_run(input: &Input, start: int, n: int, least: Option<int>) -> Option<Option<int>>
    decreases n,
{
    if n <= 0 {
        Some(least)
    } else {
        match least_in_run(input, start, n - 1, least) {
            Some(so_far) => if start + n - 1 > u64::MAX {
                None
            } else {
                match place(input, start + n - 1) {
                    Some(b) => Some(
                        Some(
                            match so_far {
                                Some(a) => if b < a {
                                    b
                                } else {
                                    a
                                },
                                None => b,
                            },
                        ),
                    ),
                    None => None,
                }
            },
            None => None,
        }
    }
}

/// The least location over the first `n` runs of seeds, where the numbers
/// of `seeds` are taken in pairs of a first seed and a count.
pub open spec fn least_in_runs(input: &Input, seeds: Seq<u64>, n: int) -> Option<Option<int>>
    decreases n,
{
    if n <= 0 {
        Some(None)
    } else {
        match least_in_runs(input, seeds, n - 1) {
            Some(so_far) => least_in_run(input, seeds[2 * (n - 1)] as int, seeds[2 * (n - 1) + 1] as int, so_far),
            None => None,
        }
    }
}

/// Once a run fails at seed number `i`, it fails for every longer run.
pub proof fn lemma_run_none(input: &Input, start: int, i: int, n: int, least: Option<int>)
    requires
        0 <= i <= n,
        least_in_run(input, start, i, least) is None,
    ensures
        least_in_run(input, start, n, least) is None,
    decreases n - i,
{
    if i < n {
        lemma_run_none(input, start, i, n - 1, least);
    }
}

/// Once the runs fail at run number `i`, more runs fail too.
pub proof fn lemma_runs_none(input: &Input, seeds: Seq<u64>, i: int, n: int)
    requires
        0 <= i <= n,
        least_in_runs(input, seeds, i) is None,
    ensures
        least_in_runs(input, seeds, n) is None,
    decreases n - i,
{
    if i < n {
        lemma_runs_none(input, seeds, i, n - 1);
    }
}

/// The least location over all runs of seeds: the numbers of the seed list
/// are taken in pairs of a first seed and a count, a last number without a
/// partner is ignored, and every seed of every run is sent through the
/// chain. `None` when there is no seed at all, or a seed or a value on its
/// way does not fit in a `u64`.
pub fn part_two(input: &Input) -> (r: Option<u64>)
    ensures
        r == match least_in_runs(input, input.seeds@, input.seeds@.len() as int / 2) {
            Some(Some(v)) => Some(v as u64),
            _ => None,
        },
{
    let n: usize = input.seeds.len();
    let pairs: usize = n / 2;
    let mut best: Option<u64> = None;
    let mut p: usize = 0;
    while p < pairs
        invariant
            p <= pairs,
            n == input.seeds@.len(),
            pairs == input.seeds@.len() as int / 2,
            least_in_runs(input, input.seeds@, p as int) == Some(
                match best {
                    Some(v) => Some(v as int),
                    None => None,
                },
            ),
        decreases pairs - p,
    {
        assert(2 * p + 1 < n);
        let start: u64 = input.seeds[2 * p];
        let count: u64 = input.seeds[2 * p + 1];
        let ghost entry: Option<int> = match best {
            Some(v) => Some(v as int),
            None => None,
        };
        let mut k: u64 = 0;
        while k < count
            invariant
                k <= count,
                p < pairs,
                pairs == input.seeds@.len() as int / 2,
                start == input.seeds@[2 * p],
                count == input.seeds@[2 * p + 1],
                least_in_runs(input, input.seeds@, p as int) == Some(entry),
                least_in_run(input, start as int, k as int, entry) == Some(
                    match best {
                        Some(v) => Some(v as int),
                        None => None,
                    },
                ),
            decreases count - k,
        {
            let found: Option<u64> = match start.checked_add(k) {
                Some(seed) => find_location(input, seed),
                None => None,
            };
            match found {
                Some(v) => {
                    best = match best {
                        Some(b) => Some(
                            if v < b {
                                v
                            } else {
                                b
                            },
                        ),
                        None => Some(v),
                    };
                },
                None => {
                    proof {
                        lemma_run_none(input, start as int, k + 1, count as int, entry);
                        lemma_runs_none(input, input.seeds@, p + 1, pairs as int);
                    }
                    return None;
                },
            }
            k += 1;
        }
        p += 1;
    }
    best
}

} // verus!

verus! {

/// The mapping line that a line of text states: its first three words are
/// the destination, the source and the length of the range.
pub open spec fn row_of(line: Seq<u8>) -> Option<RangeMap> {
    let ws = words(line);
    if ws.len() >= 3 {
        match (number(ws[0]), number(ws[1]), number(ws[2])) {
            (Some(d), Some(s), Some(r)) => if d <= u64::MAX && s <= u64::MAX && r <= u64::MAX {
                Some(RangeMap { dst: d as u64, src: s as u64, range: r as u64 })
            } else {
                None
            },
            _ => None,
        }
    } else {
        None
    }
}

/// Where the rows of the block start whose heading begins at `from`: two
/// lines further on, or at the end of the text.
pub open spec fn rows_start(ls: Seq<Seq<u8>>, from: int) -> int {
    if from + 2 <= ls.len() {
        from + 2
    } else {
        ls.len() as int
    }
}

/// Where the next block begins: behind the empty line that ends the rows,
/// or at the end of the text.
pub open spec fn next_block(ls: Seq<Seq<u8>>, from: int) -> int {
    let end = block_end(ls, rows_start(ls, from));
    if end < ls.len() {
        end + 1
    } else {
        end
    }
}

/// Every row of the block at `from` states a mapping line.
pub open spec fn rows_ok(ls: Seq<Seq<u8>>, from: int) -> bool {
    forall|i: int| rows_start(ls, from) <= i < block_end(ls, rows_start(ls, from)) ==> (#[trigger] row_of(ls[i])) is Some
}

/// The mapping lines of the block at `from`.
pub open spec fn rows(ls: Seq<Seq<u8>>, from: int) -> Seq<RangeMap> {
    Seq::new(
        (block_end(ls, rows_start(ls, from)) - rows_start(ls, from)) as nat,
        |i: int| row_of(ls[rows_start(ls, from) + i]).unwrap(),
    )
}

/// Reads one mapping line.
fn read_row(line: &[u8]) -> (r: Option<RangeMap>)
    ensures
        r == row_of(line@),
{
    let ws = words_of(line);
    if ws.len() < 3 {
        return None;
    }
    assert(views(ws@)[0] == ws@[0]@ && views(ws@)[1] == ws@[1]@ && views(ws@)[2] == ws@[2]@);
    match (parse_u64(ws[0].as_slice()), parse_u64(ws[1].as_slice()), parse_u64(ws[2].as_slice())) {
        (Some(dst), Some(src), Some(range)) => Some(RangeMap { dst, src, range }),
        _ => None,
    }
}

/// Reads the block of a mapping that begins at line `from`: skips two
/// lines, then reads one mapping line per line of text up to the next empty
/// line, which it passes over. Returns the mapping and the index of the
/// line behind the block; `None` when a row states no mapping line.
pub fn parse_mapping(lines: &Vec<Vec<u8>>, from: usize) -> (r: Option<(Vec<RangeMap>, usize)>)
    requires
        from <= lines@.len(),
    ensures
        r is Some <==> rows_ok(views(lines@), from as int),
        r matches Some((mapping, next)) ==> mapping@ == rows(views(lines@), from as int) && next == next_block(
            views(lines@),
            from as int,
        ) && next <= lines@.len(),
{
    let ghost ls = views(lines@);
    let n: usize = lines.len();
    let start: usize = if n - from >= 2 {
        from + 2
    } else {
        n
    };
    let mut mapping: Vec<RangeMap> = Vec::new();
    let mut i: usize = start;
    while i < n && lines[i].len() > 0
        invariant
            start <= i <= n,
            n == lines@.len(),
            ls == views(lines@),
            start == rows_start(ls, from as int),
            mapping@.len() == i - start,
            forall|k: int| start <= k < i ==> (#[trigger] ls[k]).len() > 0,
            forall|k: int| start <= k < i ==> (#[trigger] row_of(ls[k])) is Some,
            forall|k: int| 0 <= k < i - start ==> #[trigger] mapping@[k] == row_of(ls[start + k]).unwrap(),
        decreases n - i,
    {
        assert(ls[i as int] == lines@[i as int]@);
        match read_row(lines[i].as_slice()) {
            Some(m) => {
                mapping.push(m);
            },
            None => {
                proof {
                    lemma_block_end(ls, start as int, i as int);
                    assert(ls[i as int].len() > 0);
                    lemma_block_end(ls, i + 1, i + 1);
                    assert(block_end(ls, i as int) > i);
                }
                return None;
            },
        }
        i += 1;
    }
    proof {
        lemma_block_end(ls, start as int, i as int);
        if i < n {
            assert(ls[i as int] == lines@[i as int]@);
        }
        assert(block_end(ls, start as int) == i);
        assert(mapping@ =~= rows(ls, from as int));
    }
    let next: usize = if i < n {
        i + 1
    } else {
        i
    };
    Some((mapping, next))
}

/// The line at which block number `k` begins, the first block beginning
/// right behind the line of the seeds.
pub open spec fn block_start(ls: Seq<Seq<u8>>, k: int) -> int
    decreases k,
{
    if k <= 0 {
        if ls.len() >= 1 {
            1
        } else {
            0
        }
    } else {
        next_block(ls, block_start(ls, k - 1))
    }
}

/// The words of the first line behind its first word.
pub open spec fn seed_words(ls: Seq<Seq<u8>>) -> Seq<Seq<u8>> {
    let ws = words(ls[0]);
    if ws.len() == 0 {
        ws
    } else {
        ws.skip(1)
    }
}

/// The text states an almanac: a first line whose words behind the first
/// are numbers, and seven blocks of mapping lines.
pub open spec fn is_almanac(ls: Seq<Seq<u8>>) -> bool {
    &&& ls.len() >= 1
    &&& all_u64(seed_words(ls))
    &&& forall|k: int| 0 <= k < 7 ==> #[trigger] rows_ok(ls, block_start(ls, k))
}

/// Reads an almanac: the seeds from the first line, then seven mappings,
/// each read as `parse_mapping` says. `None` when the text states no
/// almanac.
pub fn parse_input(input: &str) -> (r: Option<Input>)
    ensures
        r is Some <==> is_almanac(lines(input.spec_bytes())),
        r matches Some(almanac) ==> {
            let ls = lines(input.spec_bytes());
            &&& almanac.seeds@ == u64s(seed_words(ls))
            &&& almanac.range_mappings@.len() == 7
            &&& forall|k: int| 0 <= k < 7 ==> (#[trigger] almanac.range_mappings@[k])@ == rows(ls, block_start(ls, k))
        },
{
    let all = lines_of(input.as_bytes());
    let ghost ls = lines(input.spec_bytes());
    if all.len() == 0 {
        return None;
    }
    assert(ls[0] == all@[0]@);
    let mut ws = words_of(all[0].as_slice());
    if ws.len() > 0 {
        let ghost before = views(ws@);
        ws.remove(0);
        assert(views(ws@) =~= before.skip(1));
    }
    assert(views(ws@) == seed_words(ls));
    let seeds = match read_u64s(&ws) {
        Some(v) => v,
        None => {
            return None;
        },
    };
    let mut range_mappings: Vec<Vec<RangeMap>> = Vec::new();
    let mut at: usize = 1;
    let mut k: usize = 0;
    while k < 7
        invariant
            k <= 7,
            at <= all@.len(),
            ls == views(all@),
            ls == lines(input.spec_bytes()),
            ls.len() >= 1,
            all_u64(seed_words(ls)),
            at == block_start(ls, k as int),
            range_mappings@.len() == k,
            forall|j: int| 0 <= j < k ==> #[trigger] rows_ok(ls, block_start(ls, j)),
            forall|j: int| 0 <= j < k ==> (#[trigger] range_mappings@[j])@ == rows(ls, block_start(ls, j)),
        decreases 7 - k,
    {
        match parse_mapping(&all, at) {
            Some((mapping, next)) => {
                range_mappings.push(mapping);
                at = next;
            },
            None => {
                assert(!rows_ok(ls, block_start(ls, k as int)));
                return None;
            },
        }
        k += 1;
    }
    Some(Input { seeds, range_mappings })
}

} // verus!
