use vstd::prelude::*;
use crate::node::Node;

verus! {

/// The UTF-8 bytes of a string.
pub open spec fn bytes_of(s: &str) -> Seq<u8> {
    vstd::string::StringSliceAdditionalSpecFns::spec_bytes(s)
}

// ---------------------------------------------------------------------------
// Splitting on a separator byte.
// ---------------------------------------------------------------------------

/// The pieces of `b` between the bytes equal to `sep`, in order: `n`
/// separators give `n + 1` pieces, some of them possibly empty.  For an
/// ASCII separator this is what `str::split` gives on the UTF-8 bytes.
pub open spec fn split_bytes(b: Seq<u8>, sep: u8) -> Seq<Seq<u8>>
    decreases b.len(),
{
    if b.len() == 0 {
        seq![Seq::<u8>::empty()]
    } else {
        let init = split_bytes(b.drop_last(), sep);
        if b.last() == sep {
            init.push(Seq::<u8>::empty())
        } else {
            init.update(init.len() - 1, init.last().push(b.last()))
        }
    }
}

proof fn lemma_split_nonempty(b: Seq<u8>, sep: u8)
    ensures
        split_bytes(b, sep).len() >= 1,
    decreases b.len(),
{
    if b.len() > 0 {
        lemma_split_nonempty(b.drop_last(), sep);
    }
}

/// The pieces of `b` between the bytes equal to `sep`.
pub fn split_on(b: &[u8], sep: u8) -> (r: Vec<Vec<u8>>)
    ensures
        r@.len() == split_bytes(b@, sep).len(),
        forall|i: int| 0 <= i < r@.len() ==> (#[trigger] r@[i])@ == split_bytes(b@, sep)[i],
{
    let mut pieces: Vec<Vec<u8>> = Vec::new();
    let mut cur: Vec<u8> = Vec::new();
    let mut k: usize = 0;
    proof {
        assert(b@.take(0) =~= Seq::<u8>::empty());
    }
    while k < b.len()
        invariant
            0 <= k <= b@.len(),
            split_bytes(b@.take(k as int), sep).len() == pieces@.len() + 1,
            forall|i: int| 0 <= i < pieces@.len() ==> (#[trigger] pieces@[i])@ == split_bytes(b@.take(k as int), sep)[i],
            cur@ == split_bytes(b@.take(k as int), sep)[pieces@.len() as int],
        decreases b.len() - k,
    {
        let ghost before = split_bytes(b@.take(k as int), sep);
        proof {
            assert(b@.take(k + 1).drop_last() =~= b@.take(k as int));
            assert(b@.take(k + 1).last() == b@[k as int]);
        }
        if b[k] == sep {
            pieces.push(cur);
            cur = Vec::new();
            proof {
                assert(cur@ =~= Seq::<u8>::empty());
            }
        } else {
            cur.push(b[k]);
        }
        k = k + 1;
    }
    proof {
        assert(b@.take(k as int) =~= b@);
    }
    pieces.push(cur);
    pieces
}

// ---------------------------------------------------------------------------
// Decimal numbers, as `str::parse` reads them.
// ---------------------------------------------------------------------------

/// An ASCII decimal digit.
pub open spec fn is_digit(c: u8) -> bool {
    48 <= c <= 57
}

/// Every byte of `b` is a digit.
pub open spec fn all_digits(b: Seq<u8>) -> bool {
    forall|i: int| 0 <= i < b.len() ==> is_digit(#[trigger] b[i])
}

/// The value of the decimal digits `b`.
pub open spec fn digits_value(b: Seq<u8>) -> int
    decreases b.len(),
{
    if b.len() == 0 {
        0
    } else {
        digits_value(b.drop_last()) * 10 + (b.last() - 48)
    }
}

/// `b` is one or more digits whose value is at most `limit`.
pub open spec fn digits_within(b: Seq<u8>, limit: int) -> bool {
    b.len() > 0 && all_digits(b) && digits_value(b) <= limit
}

/// What `str::parse::<usize>` gives on the bytes `b`: an optional `+`, then
/// one or more digits whose value fits.
pub open spec fn parse_usize_spec(b: Seq<u8>) -> Option<usize> {
    let d = if b.len() > 0 && b[0] == 43 { b.drop_first() } else { b };
    if digits_within(d, usize::MAX as int) {
        Some(digits_value(d) as usize)
    } else {
        None
    }
}

/// What `str::parse::<i32>` gives on the bytes `b`: an optional `+` or
/// `-`, then one or more digits whose signed value fits.
pub open spec fn parse_i32_spec(b: Seq<u8>) -> Option<i32> {
    if b.len() > 0 && b[0] == 45 {
        let d = b.drop_first();
        if digits_within(d, 2147483648) {
            Some((0 - digits_value(d)) as i32)
        } else {
            None
        }
    } else {
        let d = if b.len() > 0 && b[0] == 43 { b.drop_first() } else { b };
        if digits_within(d, 2147483647) {
            Some(digits_value(d) as i32)
        } else {
            None
        }
    }
}

proof fn lemma_digits_nonneg(b: Seq<u8>)
    requires
        all_digits(b),
    ensures
        digits_value(b) >= 0,
    decreases b.len(),
{
    if b.len() > 0 {
        assert(is_digit(b[b.len() - 1]));
        lemma_digits_nonneg(b.drop_last());
    }
}

/// A longer run of digits is worth at least as much as its prefix.
proof fn lemma_digits_monotone(b: Seq<u8>, m: int)
    requires
        all_digits(b),
        0 <= m <= b.len(),
    ensures
        digits_value(b.take(m)) <= digits_value(b),
    decreases b.len(),
{
    if m < b.len() {
        let init = b.drop_last();
        assert(is_digit(b[b.len() - 1]));
        lemma_digits_monotone(init, m);
        lemma_digits_nonneg(init);
        assert(init.take(m) =~= b.take(m));
    } else {
        assert(b.take(m) =~= b);
    }
}

proof fn lemma_next_digit_bound(v: int, d: int, limit: int)
    by (nonlinear_arith)
    requires
        0 <= v,
        0 <= d <= limit,
    ensures
        v <= (limit - d) / 10 <==> v * 10 + d <= limit,
{
}

/// The value of the digits `b[start..]`, when they are one or more digits
/// worth at most `limit`.
fn parse_digits(b: &[u8], start: usize, limit: u64) -> (r: Option<u64>)
    requires
        start <= b@.len(),
    ensures
        r is Some <==> digits_within(b@.skip(start as int), limit as int),
        r matches Some(v) ==> v == digits_value(b@.skip(start as int)),
{
    let ghost d = b@.skip(start as int);
    if start == b.len() {
        return None;
    }
    let mut v: u64 = 0;
    let mut k: usize = start;
    proof {
        assert(b@.subrange(start as int, start as int) =~= Seq::<u8>::empty());
    }
    while k < b.len()
        invariant
            start < b@.len(),
            start <= k <= b@.len(),
            d == b@.skip(start as int),
            all_digits(b@.subrange(start as int, k as int)),
            v == digits_value(b@.subrange(start as int, k as int)),
            v <= limit,
        decreases b.len() - k,
    {
        let c = b[k];
        let ghost pre = b@.subrange(start as int, k as int + 1);
        proof {
            assert(pre.drop_last() =~= b@.subrange(start as int, k as int));
            assert(pre =~= d.take(k - start + 1));
            assert(d[k - start] == c);
        }
        if c < 48 || c > 57 {
            return None;
        }
        let dg: u64 = (c - 48) as u64;
        if dg > limit || v > (limit - dg) / 10 {
            proof {
                if dg <= limit {
                    lemma_next_digit_bound(v as int, dg as int, limit as int);
                }
                if all_digits(d) {
                    lemma_digits_monotone(d, k - start + 1);
                }
            }
            return None;
        }
        proof {
            lemma_next_digit_bound(v as int, dg as int, limit as int);
        }
        v = v * 10 + dg;
        k = k + 1;
    }
    proof {
        assert(b@.subrange(start as int, k as int) =~= d);
    }
    Some(v)
}

/// `str::parse::<usize>` on the bytes `b`.
pub fn parse_usize(b: &[u8]) -> (r: Option<usize>)
    ensures
        r == parse_usize_spec(b@),
{
    let start: usize = if b.len() > 0 && b[0] == 43 { 1 } else { 0 };
    proof {
        assert(b@.skip(0) =~= b@);
        if start == 1 {
            assert(b@.skip(1) =~= b@.drop_first());
        }
    }
    match parse_digits(b, start, usize::MAX as u64) {
        Some(v) => Some(v as usize),
        None => None,
    }
}

/// `str::parse::<i32>` on the bytes `b`.
pub fn parse_i32(b: &[u8]) -> (r: Option<i32>)
    ensures
        r == parse_i32_spec(b@),
{
    if b.len() > 0 && b[0] == 45 {
        proof {
            assert(b@.skip(1) =~= b@.drop_first());
        }
        match parse_digits(b, 1, 2147483648) {
            Some(v) => {
                let neg: i64 = 0 - (v as i64);
                Some(neg as i32)
            },
            None => None,
        }
    } else {
        let start: usize = if b.len() > 0 && b[0] == 43 { 1 } else { 0 };
        proof {
            assert(b@.skip(0) =~= b@);
            if start == 1 {
                assert(b@.skip(1) =~= b@.drop_first());
            }
        }
        match parse_digits(b, start, 2147483647) {
            Some(v) => Some(v as i32),
            None => None,
        }
    }
}

// ---------------------------------------------------------------------------
// The task: supplies, demands and costs, as stored.
// ---------------------------------------------------------------------------

/// The quantity of a supply or demand token `name_qty`: its second
/// `_`-separated piece, read as an `i32`.
pub open spec fn qty_of_token(tok: Seq<u8>) -> Option<i32> {
    let parts = split_bytes(tok, 95);
    if parts.len() >= 2 {
        parse_i32_spec(parts[1])
    } else {
        None
    }
}

/// The cell of a cost token `s_d_cost`: supply node `s`, demand node `d`,
/// both read as indices into the quantities, and the unit cost.
pub open spec fn node_of_token(tok: Seq<u8>, s_qtys: Seq<i32>, d_qtys: Seq<i32>) -> Option<Node> {
    let parts = split_bytes(tok, 95);
    if parts.len() >= 3 && parse_usize_spec(parts[0]) is Some && parse_usize_spec(parts[1]) is Some
        && parse_i32_spec(parts[2]) is Some {
        let si = parse_usize_spec(parts[0]).unwrap();
        let di = parse_usize_spec(parts[1]).unwrap();
        if si < s_qtys.len() && di < d_qtys.len() {
            Some(
                Node {
                    s_node_id: si,
                    s_qty: s_qtys[si as int],
                    d_node_id: di,
                    d_qty: d_qtys[di as int],
                    node_cost: parse_i32_spec(parts[2]).unwrap(),
                    node_qty: 0,
                },
            )
        } else {
            None
        }
    } else {
        None
    }
}

/// A cell read from a cost token `s_d_cost` links supply node `s` with
/// demand node `d`, takes the quantity of supply token `s` as its supply and
/// that of demand token `d` as its demand, the cost the token writes, and
/// nothing assigned; a cell is read exactly when the token has these three
/// pieces and both nodes exist.
pub proof fn lemma_node_of_token_law(tok: Seq<u8>, s_qtys: Seq<i32>, d_qtys: Seq<i32>)
    ensures
        ({
            let parts = split_bytes(tok, 95);
            node_of_token(tok, s_qtys, d_qtys) is Some <==> (parts.len() >= 3 && parse_usize_spec(parts[0]) is Some
                && parse_usize_spec(parts[0]).unwrap() < s_qtys.len() && parse_usize_spec(parts[1]) is Some
                && parse_usize_spec(parts[1]).unwrap() < d_qtys.len() && parse_i32_spec(parts[2]) is Some)
        }),
        node_of_token(tok, s_qtys, d_qtys) matches Some(n) ==> ({
            let parts = split_bytes(tok, 95);
            &&& parse_usize_spec(parts[0]) == Some(n.s_node_id)
            &&& parse_usize_spec(parts[1]) == Some(n.d_node_id)
            &&& parse_i32_spec(parts[2]) == Some(n.node_cost)
            &&& n.s_node_id < s_qtys.len()
            &&& n.d_node_id < d_qtys.len()
            &&& n.s_qty == s_qtys[n.s_node_id as int]
            &&& n.d_qty == d_qtys[n.d_node_id as int]
            &&& n.node_qty == 0
        }),
{
}

/// Every token has a quantity.
pub open spec fn all_qtys(toks: Seq<Seq<u8>>) -> bool {
    forall|i: int| 0 <= i < toks.len() ==> (#[trigger] qty_of_token(toks[i])) is Some
}

/// The quantities of the tokens.
pub open spec fn qtys_of(toks: Seq<Seq<u8>>) -> Seq<i32> {
    Seq::new(toks.len(), |i: int| qty_of_token(toks[i]).unwrap())
}

/// The quantity of each token, or `None` when one has none.
fn quantities(toks: &Vec<Vec<u8>>) -> (r: Option<Vec<i32>>)
    ensures
        r is Some <==> all_qtys(toks@.map_values(|t: Vec<u8>| t@)),
        r matches Some(q) ==> q@ == qtys_of(toks@.map_values(|t: Vec<u8>| t@)),
{
    let ghost ts = toks@.map_values(|t: Vec<u8>| t@);
    let mut q: Vec<i32> = Vec::new();
    let mut i: usize = 0;
    while i < toks.len()
        invariant
            ts == toks@.map_values(|t: Vec<u8>| t@),
            0 <= i <= toks@.len(),
            forall|i2: int| 0 <= i2 < i ==> (#[trigger] qty_of_token(ts[i2])) is Some,
            q@ == qtys_of(ts).take(i as int),
        decreases toks.len() - i,
    {
        let parts = split_on(toks[i].as_slice(), 95);
        assert(toks@[i as int]@ == ts[i as int]);
        if parts.len() < 2 {
            assert(qty_of_token(ts[i as int]) is None);
            return None;
        }
        match parse_i32(parts[1].as_slice()) {
            Some(x) => {
                q.push(x);
            },
            None => {
                assert(qty_of_token(ts[i as int]) is None);
                return None;
            },
        }
        i = i + 1;
        assert(q@ =~= qtys_of(ts).take(i as int));
    }
    assert(q@ =~= qtys_of(ts));
    Some(q)
}

/// The cell of a cost token, or `None` when it does not hold one.
fn node_from_token(tok: &Vec<u8>, s_qtys: &Vec<i32>, d_qtys: &Vec<i32>) -> (r: Option<Node>)
    ensures
        r == node_of_token(tok@, s_qtys@, d_qtys@),
{
    let parts = split_on(tok.as_slice(), 95);
    if parts.len() < 3 {
        return None;
    }
    let si = match parse_usize(parts[0].as_slice()) {
        Some(x) => x,
        None => {
            return None;
        },
    };
    let di = match parse_usize(parts[1].as_slice()) {
        Some(x) => x,
        None => {
            return None;
        },
    };
    let cost = match parse_i32(parts[2].as_slice()) {
        Some(x) => x,
        None => {
            return None;
        },
    };
    if si >= s_qtys.len() || di >= d_qtys.len() {
        return None;
    }
    Some(Node { s_node_id: si, s_qty: s_qtys[si], d_node_id: di, d_qty: d_qtys[di], node_cost: cost, node_qty: 0 })
}

/// The tokens of a space-separated string.
pub open spec fn tokens(s: Seq<u8>) -> Seq<Seq<u8>> {
    split_bytes(s, 32)
}

/// The task stored as three strings is well formed: every supply and
/// demand token has a quantity, and every cost token names a cell.
pub open spec fn task_ok(supply: Seq<u8>, demand: Seq<u8>, costs: Seq<u8>) -> bool {
    let sq = qtys_of(tokens(supply));
    let dq = qtys_of(tokens(demand));
    &&& all_qtys(tokens(supply))
    &&& all_qtys(tokens(demand))
    &&& forall|k: int| 0 <= k < tokens(costs).len() ==> (#[trigger] node_of_token(tokens(costs)[k], sq, dq)) is Some
}

/// Read a transportation task stored as three space-separated strings:
/// the supply tokens `name_qty`, the demand tokens `name_qty` and the cost
/// tokens `s_d_cost`.  Gives the cells in the order of the cost tokens, the
/// number of supply tokens and the number of demand tokens; `None` when a
/// token is malformed or a cost token names a node that does not exist.
pub fn parse_task(supply: &str, demand: &str, costs: &str) -> (r: Option<(Vec<Node>, usize, usize)>)
    ensures
        r is Some <==> task_ok(bytes_of(supply), bytes_of(demand), bytes_of(costs)),
        r matches Some((v, s, d)) ==> {
            let sq = qtys_of(tokens(bytes_of(supply)));
            let dq = qtys_of(tokens(bytes_of(demand)));
            let ct = tokens(bytes_of(costs));
            &&& s == tokens(bytes_of(supply)).len()
            &&& d == tokens(bytes_of(demand)).len()
            &&& v@.len() == ct.len()
            &&& forall|k: int| 0 <= k < ct.len() ==> Some(#[trigger] v@[k]) == node_of_token(ct[k], sq, dq)
            &&& forall|k: int|
                0 <= k < ct.len() ==> (#[trigger] v@[k]).s_node_id < s && v@[k].d_node_id < d && v@[k].s_qty
                    == sq[v@[k].s_node_id as int] && v@[k].d_qty == dq[v@[k].d_node_id as int] && v@[k].node_qty == 0
        },
{
    let supply_vec = split_on(supply.as_bytes(), 32);
    let demand_vec = split_on(demand.as_bytes(), 32);
    let costs_vec = split_on(costs.as_bytes(), 32);
    proof {
        assert(supply_vec@.map_values(|t: Vec<u8>| t@) =~= tokens(bytes_of(supply)));
        assert(demand_vec@.map_values(|t: Vec<u8>| t@) =~= tokens(bytes_of(demand)));
    }
    let s_task_size = supply_vec.len();
    let d_task_size = demand_vec.len();
    let s_qtys = match quantities(&supply_vec) {
        Some(q) => q,
        None => {
            return None;
        },
    };
    let d_qtys = match quantities(&demand_vec) {
        Some(q) => q,
        None => {
            return None;
        },
    };
    let ghost ct = tokens(bytes_of(costs));
    let mut task: Vec<Node> = Vec::new();
    let mut k: usize = 0;
    while k < costs_vec.len()
        invariant
            ct == tokens(bytes_of(costs)),
            costs_vec@.len() == ct.len(),
            forall|i: int| 0 <= i < costs_vec@.len() ==> (#[trigger] costs_vec@[i])@ == ct[i],
            s_qtys@ == qtys_of(tokens(bytes_of(supply))),
            d_qtys@ == qtys_of(tokens(bytes_of(demand))),
            0 <= k <= costs_vec@.len(),
            task@.len() == k,
            forall|i: int| 0 <= i < k ==> Some(#[trigger] task@[i]) == node_of_token(ct[i], s_qtys@, d_qtys@),
        decreases costs_vec.len() - k,
    {
        assert(costs_vec@[k as int]@ == ct[k as int]);
        match node_from_token(&costs_vec[k], &s_qtys, &d_qtys) {
            Some(n) => {
                task.push(n);
            },
            None => {
                assert(node_of_token(ct[k as int], s_qtys@, d_qtys@) is None);
                return None;
            },
        }
        k = k + 1;
    }
    proof {
        assert forall|i: int| 0 <= i < ct.len() implies (#[trigger] node_of_token(ct[i], s_qtys@, d_qtys@)) is Some by {
            assert(Some(task@[i]) == node_of_token(ct[i], s_qtys@, d_qtys@));
        }
        assert forall|i: int| 0 <= i < ct.len() implies (#[trigger] task@[i]).s_node_id < s_task_size
            && task@[i].d_node_id < d_task_size && task@[i].s_qty == s_qtys@[task@[i].s_node_id as int]
            && task@[i].d_qty == d_qtys@[task@[i].d_node_id as int] && task@[i].node_qty == 0 by {
            assert(Some(task@[i]) == node_of_token(ct[i], s_qtys@, d_qtys@));
            lemma_node_of_token_law(ct[i], s_qtys@, d_qtys@);
        }
    }
    Some((task, s_task_size, d_task_size))
}

} // verus!
