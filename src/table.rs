use vstd::prelude::*;
use vstd::std_specs::bits::{axiom_u32_leading_zeros, u32_leading_zeros};
use crate::address::{Address, AddressParseError, address_value};

verus! {

/// Bit `i` of an address value, counted from the most significant (bit 0).
pub open spec fn bit_of(x: u32, i: int) -> u8 {
    ((x >> ((31 - i) as u32)) & 1u32) as u8
}

/// All 32 bits of an address value, most significant first.
pub open spec fn bits(x: u32) -> Seq<u8> {
    Seq::new(32, |i: int| bit_of(x, i))
}

/// How many leading bits two address values share.
pub open spec fn shared_len(a: u32, b: u32) -> nat {
    u32_leading_zeros(a ^ b) as nat
}

/// The prefix that a range from `start` to `end` stands for: the leading bits that
/// both ends share, taken from `start`.
pub open spec fn range_prefix(start: u32, end: u32) -> Seq<u8> {
    bits(start).take(shared_len(start, end) as int)
}

/// The destination of the longest prefix of `key`, at most `n` bits long, that
/// `routes` holds.
pub open spec fn longest_match(routes: Map<Seq<u8>, Address>, key: Seq<u8>, n: nat) -> Option<
    Address,
>
    decreases n,
{
    if routes.contains_key(key.take(n as int)) {
        Some(routes[key.take(n as int)])
    } else if n == 0 {
        None
    } else {
        longest_match(routes, key, (n - 1) as nat)
    }
}

/// The route that a table picks for an address value.
pub open spec fn route_of(routes: Map<Seq<u8>, Address>, x: u32) -> Option<Address> {
    longest_match(routes, bits(x), 32)
}

/// The first `n` bits of `x`, most significant first.
fn leading_bits(x: u32, n: u32) -> (r: Vec<u8>)
    requires
        n <= 32,
    ensures
        r@ == bits(x).take(n as int),
{
    let mut v: Vec<u8> = Vec::new();
    let mut i: u32 = 0;
    while i < n
        invariant
            i <= n <= 32,
            v@ == bits(x).take(i as int),
        decreases n - i,
    {
        let b = ((x >> (31 - i)) & 1u32) as u8;
        v.push(b);
        assert(v@ =~= bits(x).take(i + 1));
        i = i + 1;
    }
    v
}

proof fn lemma_bits_binary(x: u32)
    ensures
        forall|i: int| 0 <= i < 32 ==> #[trigger] bit_of(x, i) == 0 || bit_of(x, i) == 1,
{
    assert forall|i: int| 0 <= i < 32 implies #[trigger] bit_of(x, i) == 0 || bit_of(x, i) == 1 by {
        let s = (31 - i) as u32;
        assert((x >> s) & 1u32 == 0 || (x >> s) & 1u32 == 1) by (bit_vector);
    }
}

/// Past `k`, where no longer prefix of `key` up to `m` bits is a route, the longest
/// match stays as it was at `k`.
proof fn lemma_longest_match_stays(routes: Map<Seq<u8>, Address>, key: Seq<u8>, k: nat, m: nat)
    requires
        k <= m,
        forall|l: int| k < l <= m ==> !routes.contains_key(#[trigger] key.take(l)),
    ensures
        longest_match(routes, key, m) == longest_match(routes, key, k),
    decreases m,
{
    if m > k {
        lemma_longest_match_stays(routes, key, k, (m - 1) as nat);
    }
}

/// A vertex of the trie: the prefix it stands for is the path from the root.
#[derive(Clone, Copy)]
pub struct Node {
    zero: Option<usize>,
    one: Option<usize>,
    is_terminal: bool,
    dest: Option<Address>,
}

/// The child of a node at bit `b`.
spec fn child(n: Node, b: u8) -> Option<usize> {
    if b == 0 {
        n.zero
    } else {
        n.one
    }
}

impl Node {
    fn new() -> (r: Node)
        ensures
            r.zero is None,
            r.one is None,
            !r.is_terminal,
            r.dest is None,
    {
        Node { zero: None, one: None, dest: None, is_terminal: false }
    }
}

/// A longest-prefix-match table of IPv4 routes: a binary trie over address bits whose
/// nodes live in one vector, the root at index 0.
pub struct Table {
    nodes: Vec<Node>,
    /// the prefix of each node
    paths: Ghost<Seq<Seq<u8>>>,
    /// the index of each node's parent (the root's is unused)
    parents: Ghost<Seq<int>>,
    /// the routes: each prefix that ends at a terminal node, with its destination
    routes: Ghost<Map<Seq<u8>, Address>>,
}

impl View for Table {
    type V = Map<Seq<u8>, Address>;

    closed spec fn view(&self) -> Map<Seq<u8>, Address> {
        self.routes@
    }
}

impl Table {
    /// The trie's shape agrees with the node paths, and its terminal nodes with the routes.
    pub closed spec fn wf(&self) -> bool {
        let nodes = self.nodes@;
        let paths = self.paths@;
        let parents = self.parents@;
        let routes = self.routes@;
        let n = nodes.len();
        &&& n >= 1
        &&& paths.len() == n
        &&& parents.len() == n
        &&& paths[0] == Seq::<u8>::empty()
        &&& forall|i: int, b: u8|
            0 <= i < n && (b == 0 || b == 1) && (#[trigger] child(nodes[i], b)) is Some ==> {
                let c = child(nodes[i], b)->Some_0 as int;
                &&& 0 < c < n
                &&& parents[c] == i
                &&& paths[c] == paths[i].push(b)
            }
        &&& forall|j: int|
            0 < j < n ==> {
                let p = #[trigger] parents[j];
                &&& 0 <= p < j
                &&& paths[j].len() > 0
                &&& paths[p] == paths[j].drop_last()
                &&& (paths[j].last() == 0 || paths[j].last() == 1)
                &&& child(nodes[p], paths[j].last()) == Some(j as usize)
            }
        &&& forall|i: int, j: int|
            0 <= i < n && 0 <= j < n && i != j ==> #[trigger] paths[i] != #[trigger] paths[j]
        &&& forall|i: int|
            0 <= i < n ==> {
                let node = #[trigger] nodes[i];
                &&& node.is_terminal == node.dest is Some
                &&& node.dest is Some <==> routes.contains_key(paths[i])
                &&& node.dest is Some ==> routes[paths[i]] == node.dest->Some_0
            }
        &&& forall|p: Seq<u8>|
            #[trigger] routes.contains_key(p) ==> exists|i: int| 0 <= i < n && paths[i] == p
    }

    /// Each prefix of a node's path is the path of some node.
    proof fn lemma_ancestor(&self, j: int, m: int)
        requires
            self.wf(),
            0 <= j < self.nodes@.len(),
            0 <= m <= self.paths@[j].len(),
        ensures
            exists|a: int| 0 <= a < self.nodes@.len() && self.paths@[a] == self.paths@[j].take(m),
        decreases j,
    {
        let paths = self.paths@;
        if m == paths[j].len() {
            assert(paths[j].take(m) =~= paths[j]);
        } else {
            let p = self.parents@[j];
            assert(paths[p] == paths[j].drop_last());
            self.lemma_ancestor(p, m);
            assert(paths[p].take(m) =~= paths[j].take(m));
        }
    }

    /// Where a node has no child at bit `b`, no node stands for its path extended by `b`.
    proof fn lemma_no_child(&self, i: int, b: u8)
        requires
            self.wf(),
            0 <= i < self.nodes@.len(),
            b == 0 || b == 1,
            child(self.nodes@[i], b) is None,
        ensures
            forall|j: int|
                0 <= j < self.nodes@.len() ==> #[trigger] self.paths@[j] != self.paths@[i].push(b),
    {
        let paths = self.paths@;
        assert forall|j: int| 0 <= j < self.nodes@.len() implies #[trigger] paths[j] != paths[i].push(
            b,
        ) by {
            if paths[j] == paths[i].push(b) {
                assert(paths[j].len() > 0);
                assert(j != 0);
                let p = self.parents@[j];
                assert(paths[p] =~= paths[i]);
                assert(paths[j].last() == b);
            }
        }
    }

    /// The 32 bits of the address written in `ip`, most significant first.
    pub fn ip_to_bit_vec(ip: String) -> (r: Result<Vec<u8>, AddressParseError>)
        ensures
            match r {
                Ok(v) => address_value(ip@) is Some && v@ == bits(address_value(ip@)->Some_0),
                Err(_) => address_value(ip@) is None,
            },
    {
        let a = Address::parse(ip.as_str())?;
        Ok(leading_bits(a.bits, 32))
    }

    /// The prefix that the range from `start` to `end` stands for: as many leading bits
    /// of `start` as it shares with `end`.
    pub fn prefix(&self, start: String, end: String) -> (r: Result<Vec<u8>, AddressParseError>)
        ensures
            match r {
                Ok(v) => address_value(start@) is Some && address_value(end@) is Some && v@
                    == range_prefix(address_value(start@)->Some_0, address_value(end@)->Some_0),
                Err(_) => address_value(start@) is None || address_value(end@) is None,
            },
    {
        let s = Address::parse(start.as_str())?;
        let e = Address::parse(end.as_str())?;
        let n = (s.bits ^ e.bits).leading_zeros();
        proof {
            axiom_u32_leading_zeros(s.bits ^ e.bits);
        }
        Ok(leading_bits(s.bits, n))
    }

    /// The destination of the longest route whose prefix leads the address written in
    /// `ip`, if any route does.
    pub fn lookup(&self, ip: String) -> (r: Result<Option<Address>, AddressParseError>)
        requires
            self.wf(),
        ensures
            match r {
                Ok(found) => address_value(ip@) is Some && found == route_of(
                    self@,
                    address_value(ip@)->Some_0,
                ),
                Err(_) => address_value(ip@) is None,
            },
    {
        let key = Table::ip_to_bit_vec(ip)?;
        let ghost x = address_value(ip@)->Some_0;
        let ghost routes = self.routes@;
        proof {
            lemma_bits_binary(x);
            assert(key@.take(0) =~= Seq::<u8>::empty());
        }
        let root = self.nodes[0];
        let mut best = if root.is_terminal {
            root.dest
        } else {
            None
        };
        let mut cur: usize = 0;
        let mut k: usize = 0;
        while k < 32
            invariant
                self.wf(),
                routes == self@,
                address_value(ip@) == Some(x),
                key@ == bits(x),
                0 <= cur < self.nodes@.len(),
                k <= 32,
                self.paths@[cur as int] == key@.take(k as int),
                best == longest_match(routes, key@, k as nat),
            decreases 32 - k,
        {
            let bit = key[k];
            let node = self.nodes[cur];
            let next = if bit == 0 {
                node.zero
            } else {
                node.one
            };
            proof {
                lemma_bits_binary(x);
                assert(bit_of(x, k as int) == bit);
            }
            match next {
                Some(c) => {
                    proof {
                        assert(child(node, bit) == Some(c));
                        assert(key@.take(k + 1) =~= key@.take(k as int).push(bit));
                    }
                    let n = self.nodes[c];
                    if n.is_terminal {
                        best = n.dest;
                    }
                    cur = c;
                    k = k + 1;
                },
                None => {
                    proof {
                        assert(child(node, bit) is None);
                        self.lemma_no_child(cur as int, bit);
                        assert forall|l: int| k < l <= 32 implies !routes.contains_key(
                            #[trigger] key@.take(l),
                        ) by {
                            if routes.contains_key(key@.take(l)) {
                                let j = choose|j: int|
                                    0 <= j < self.nodes@.len() && self.paths@[j] == key@.take(l);
                                self.lemma_ancestor(j, k + 1);
                                assert(key@.take(l).take(k + 1) =~= self.paths@[cur as int].push(
                                    bit,
                                ));
                            }
                        }
                        lemma_longest_match_stays(routes, key@, k as nat, 32);
                    }
                    return Ok(best);
                },
            }
        }
        Ok(best)
    }

    /// Adds the route from the range `start` to `end` (see `prefix`) to `dest`. A route
    /// of the same prefix is replaced. Where any of the three fails to parse, the table
    /// is left as it was.
    pub fn insert_range(&mut self, start: String, end: String, dest: String) -> (r: Result<
        (),
        AddressParseError,
    >)
        requires
            old(self).wf(),
        ensures
            final(self).wf(),
            r is Ok <==> address_value(start@) is Some && address_value(end@) is Some
                && address_value(dest@) is Some,
            r is Ok ==> final(self)@ == old(self)@.insert(
                range_prefix(address_value(start@)->Some_0, address_value(end@)->Some_0),
                (Address { bits: address_value(dest@)->Some_0 }),
            ),
            r is Err ==> final(self)@ == old(self)@,
    {
        let prefix = self.prefix(start, end)?;
        let d = Address::parse(dest.as_str())?;
        let ghost sv = address_value(start@)->Some_0;
        let ghost ev = address_value(end@)->Some_0;
        proof {
            lemma_bits_binary(sv);
            axiom_u32_leading_zeros(sv ^ ev);
            assert(prefix@.take(0) =~= Seq::<u8>::empty());
        }
        let mut cur: usize = 0;
        let mut k: usize = 0;
        while k < prefix.len()
            invariant
                self.wf(),
                self@ == old(self)@,
                prefix@ == range_prefix(sv, ev),
                prefix@.len() <= 32,
                forall|i: int| 0 <= i < prefix@.len() ==> #[trigger] prefix@[i] == 0 || prefix@[i] == 1,
                0 <= cur < self.nodes@.len(),
                k <= prefix@.len(),
                self.paths@[cur as int] == prefix@.take(k as int),
            decreases prefix@.len() - k,
        {
            let bit = prefix[k];
            let node = self.nodes[cur];
            let next = if bit == 0 {
                node.zero
            } else {
                node.one
            };
            proof {
                assert(prefix@.take(k + 1) =~= prefix@.take(k as int).push(bit));
                assert(child(node, bit) == next);
            }
            match next {
                Some(c) => {
                    cur = c;
                },
                None => {
                    proof {
                        self.lemma_no_child(cur as int, bit);
                    }
                    let ghost old_nodes = self.nodes@;
                    let ghost old_paths = self.paths@;
                    let ghost old_parents = self.parents@;
                    let c = self.nodes.len();
                    let mut updated = node;
                    if bit == 0 {
                        updated.zero = Some(c);
                    } else {
                        updated.one = Some(c);
                    }
                    self.nodes.push(Node::new());
                    self.nodes.set(cur, updated);
                    let ghost paths = old_paths.push(prefix@.take(k + 1));
                    let ghost parents = old_parents.push(cur as int);
                    self.paths = Ghost(paths);
                    self.parents = Ghost(parents);
                    proof {
                        let nodes = self.nodes@;
                        let routes = self.routes@;
                        assert(child(updated, bit) == Some(c));
                        assert forall|b: u8| (b == 0 || b == 1) && b != bit implies child(
                            updated,
                            b,
                        ) == child(node, b) by {}
                        assert forall|p: Seq<u8>| #[trigger] routes.contains_key(p) implies exists|
                            i: int,
                        | 0 <= i < nodes.len() && paths[i] == p by {
                            let i = choose|i: int| 0 <= i < old_nodes.len() && old_paths[i] == p;
                            assert(paths[i] == p);
                        }
                        assert forall|j: int| 0 < j < nodes.len() implies {
                            let p = #[trigger] parents[j];
                            &&& 0 <= p < j
                            &&& paths[j].len() > 0
                            &&& paths[p] == paths[j].drop_last()
                            &&& (paths[j].last() == 0 || paths[j].last() == 1)
                            &&& child(nodes[p], paths[j].last()) == Some(j as usize)
                        } by {
                            if j == c {
                                assert(paths[j].drop_last() =~= paths[cur as int]);
                            } else {
                                let p = old_parents[j];
                                assert(child(old_nodes[p], old_paths[j].last()) == Some(j as usize));
                            }
                        }
                        assert forall|i: int| 0 <= i < nodes.len() implies {
                            let node = #[trigger] nodes[i];
                            &&& node.is_terminal == node.dest is Some
                            &&& node.dest is Some <==> routes.contains_key(paths[i])
                            &&& node.dest is Some ==> routes[paths[i]] == node.dest->Some_0
                        } by {
                            if i == c {
                                if routes.contains_key(paths[i]) {
                                    let w = choose|w: int|
                                        0 <= w < old_nodes.len() && old_paths[w] == paths[i];
                                    assert(old_paths[w] == old_paths[cur as int].push(bit));
                                }
                            } else {
                                assert(old_nodes[i].dest == nodes[i].dest);
                            }
                        }
                    }
                    cur = c;
                },
            }
            k = k + 1;
        }
        proof {
            assert(prefix@.take(k as int) =~= prefix@);
        }
        let mut node = self.nodes[cur];
        node.is_terminal = true;
        node.dest = Some(d);
        let ghost old_paths = self.paths@;
        let ghost old_routes = self.routes@;
        let ghost old_nodes_ghost = self.nodes@;
        self.nodes.set(cur, node);
        let ghost routes = old_routes.insert(prefix@, d);
        self.routes = Ghost(routes);
        proof {
            let nodes = self.nodes@;
            let old_nodes = old_nodes_ghost;
            assert forall|i: int, b: u8|
                0 <= i < nodes.len() && (b == 0 || b == 1) implies #[trigger] child(nodes[i], b)
                == child(old_nodes[i], b) by {}
            assert forall|i: int| 0 <= i < nodes.len() implies {
                let node = #[trigger] nodes[i];
                &&& node.is_terminal == node.dest is Some
                &&& node.dest is Some <==> routes.contains_key(old_paths[i])
                &&& node.dest is Some ==> routes[old_paths[i]] == node.dest->Some_0
            } by {
                if i != cur {
                    assert(old_paths[i] != old_paths[cur as int]);
                    assert(old_nodes[i] == nodes[i]);
                }
            }
            assert forall|p: Seq<u8>| #[trigger] routes.contains_key(p) implies exists|i: int|
                0 <= i < nodes.len() && old_paths[i] == p by {
                if p != prefix@ {
                    let i = choose|i: int| 0 <= i < nodes.len() && old_paths[i] == p;
                } else {
                    assert(old_paths[cur as int] == p);
                }
            }
        }
        Ok(())
    }

    /// An empty table: no routes.
    pub fn new() -> (r: Table)
        ensures
            r.wf(),
            r@ == Map::<Seq<u8>, Address>::empty(),
    {
        let mut nodes: Vec<Node> = Vec::new();
        nodes.push(Node::new());
        let ghost paths = seq![Seq::<u8>::empty()];
        let ghost parents = seq![0int];
        let ghost routes = Map::<Seq<u8>, Address>::empty();
        Table { nodes, paths: Ghost(paths), parents: Ghost(parents), routes: Ghost(routes) }
    }
}


/// A range whose two ends are one address stands for all 32 bits of it: a host route.
pub proof fn lemma_prefix_of_single_address(x: u32)
    ensures
        range_prefix(x, x) == bits(x),
{
    assert(x ^ x == 0) by (bit_vector);
    axiom_u32_leading_zeros(0);
    assert(bits(x).take(32) =~= bits(x));
}

/// The range from 0.0.0.0 to 255.255.255.255 stands for the empty prefix: the default route.
pub proof fn lemma_prefix_of_whole_space()
    ensures
        range_prefix(0, 0xffff_ffff) == Seq::<u8>::empty(),
{
    assert(0u32 ^ 0xffff_ffffu32 == 0xffff_ffffu32) by (bit_vector);
    axiom_u32_leading_zeros(0xffff_ffff);
    assert((0xffff_ffffu32 >> 31u32) & 1u32 == 1u32) by (bit_vector);
    assert(bits(0).take(0) =~= Seq::<u8>::empty());
}

proof fn lemma_longest_match_empty(key: Seq<u8>, n: nat)
    ensures
        longest_match(Map::empty(), key, n) == None::<Address>,
    decreases n,
{
    if n > 0 {
        lemma_longest_match_empty(key, (n - 1) as nat);
    }
}

/// A table with no routes routes no address.
pub proof fn lemma_empty_table_routes_nothing(x: u32)
    ensures
        route_of(Map::empty(), x) == None::<Address>,
{
    lemma_longest_match_empty(bits(x), 32);
}

proof fn lemma_longest_match_default(d: Address, key: Seq<u8>, n: nat)
    requires
        n <= key.len(),
    ensures
        longest_match(Map::empty().insert(Seq::<u8>::empty(), d), key, n) == Some(d),
    decreases n,
{
    let routes = Map::empty().insert(Seq::<u8>::empty(), d);
    if n > 0 {
        assert(key.take(n as int).len() == n);
        assert(!routes.contains_key(key.take(n as int)));
        lemma_longest_match_default(d, key, (n - 1) as nat);
    } else {
        assert(key.take(0) =~= Seq::<u8>::empty());
    }
}

/// Where the one route is the range from 0.0.0.0 to 255.255.255.255, every address is
/// routed to its destination.
pub proof fn lemma_default_route(d: Address, x: u32)
    ensures
        route_of(Map::empty().insert(range_prefix(0, 0xffff_ffff), d), x) == Some(d),
{
    lemma_prefix_of_whole_space();
    lemma_longest_match_default(d, bits(x), 32);
}

/// Two routes inserted in either order give the same routes, unless they have one
/// prefix and different destinations (then the later one wins).
pub proof fn lemma_insertion_order(
    routes: Map<Seq<u8>, Address>,
    s1: u32,
    e1: u32,
    d1: Address,
    s2: u32,
    e2: u32,
    d2: Address,
)
    requires
        range_prefix(s1, e1) != range_prefix(s2, e2) || d1 == d2,
    ensures
        routes.insert(range_prefix(s1, e1), d1).insert(range_prefix(s2, e2), d2) == routes.insert(
            range_prefix(s2, e2),
            d2,
        ).insert(range_prefix(s1, e1), d1),
        forall|x: u32|
            route_of(routes.insert(range_prefix(s1, e1), d1).insert(range_prefix(s2, e2), d2), x)
                == route_of(
                routes.insert(range_prefix(s2, e2), d2).insert(range_prefix(s1, e1), d1),
                x,
            ),
{
    assert(routes.insert(range_prefix(s1, e1), d1).insert(range_prefix(s2, e2), d2) =~= routes.insert(
        range_prefix(s2, e2),
        d2,
    ).insert(range_prefix(s1, e1), d1));
}

/// `shared_len` counts the leading bits on which two address values agree: they agree on
/// every bit before it, and differ at it where it is under 32.
pub proof fn lemma_shared_len_is_common_prefix(a: u32, b: u32)
    ensures
        shared_len(a, b) <= 32,
        forall|i: int| 0 <= i < shared_len(a, b) ==> #[trigger] bit_of(a, i) == bit_of(b, i),
        shared_len(a, b) < 32 ==> bit_of(a, shared_len(a, b) as int) != bit_of(b, shared_len(a, b) as int),
{
    let x = a ^ b;
    axiom_u32_leading_zeros(x);
    let n = u32_leading_zeros(x);
    assert forall|i: int| 0 <= i < shared_len(a, b) implies #[trigger] bit_of(a, i) == bit_of(b, i) by {
        let j = (31 - i) as u32;
        assert((x >> j) & 1u32 == 0u32);
        assert(x == a ^ b && (x >> j) & 1u32 == 0u32 ==> (a >> j) & 1u32 == (b >> j) & 1u32)
            by (bit_vector);
    }
    if n < 32 {
        let j = (31 - n) as u32;
        assert(x == a ^ b && (x >> j) & 1u32 != 0u32 ==> (a >> j) & 1u32 != (b >> j) & 1u32)
            by (bit_vector);
        assert((a >> j) & 1u32 <= 1 && (b >> j) & 1u32 <= 1) by (bit_vector);
    }
}

/// The longest match is a route whose prefix leads `key` and no longer route leads it
/// (up to `n` bits); where there is none, no route of at most `n` bits leads `key`.
pub proof fn lemma_longest_match_is_longest(routes: Map<Seq<u8>, Address>, key: Seq<u8>, n: nat)
    ensures
        longest_match(routes, key, n) matches Some(d) ==> exists|l: int|
            0 <= l <= n && #[trigger] routes.contains_key(key.take(l)) && routes[key.take(l)] == d
                && forall|m: int| l < m <= n ==> !routes.contains_key(#[trigger] key.take(m)),
        longest_match(routes, key, n) is None ==> forall|m: int|
            0 <= m <= n ==> !routes.contains_key(#[trigger] key.take(m)),
    decreases n,
{
    if routes.contains_key(key.take(n as int)) {
        assert(routes.contains_key(key.take(n as int)));
    } else if n > 0 {
        lemma_longest_match_is_longest(routes, key, (n - 1) as nat);
        if longest_match(routes, key, n) is Some {
            let l = choose|l: int|
                0 <= l <= n - 1 && #[trigger] routes.contains_key(key.take(l))
                    && routes[key.take(l)] == longest_match(routes, key, n)->Some_0 && forall|m: int|
                    l < m <= n - 1 ==> !routes.contains_key(#[trigger] key.take(m));
            assert(routes.contains_key(key.take(l)));
        }
    }
}

} // verus!
