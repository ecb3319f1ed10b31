//! Content hashes: each unit's deep hash covers its own contents and the
//! deep hashes of the units it imports from, so that a change anywhere below
//! a unit changes the unit's hash too.

use vstd::prelude::*;
use vstd::utf8::encode_utf8;
use sha2::{Digest, Sha256};
use crate::graph::{
    incoming_sources, is_acyclic, is_topological_order, edges_within,
    lemma_sources_earlier, ModuleGraph,
};
use crate::text::string_views;
use crate::unit::TranslationUnit;

verus! {

broadcast use vstd::seq_lib::group_seq_properties;

/// The SHA-256 digest of `data`.
pub uninterp spec fn sha256_spec(data: Seq<u8>) -> Seq<u8>;

/// `<Sha256 as Digest>::digest`: the SHA-256 digest of `data`, 32 bytes long.
#[verifier::external_body]
fn sha256(data: &[u8]) -> (r: Vec<u8>)
    ensures
        r@ == sha256_spec(data@),
        r@.len() == 32,
{
    Sha256::digest(data).to_vec()
}

/// The lowercase hexadecimal digit for `n < 16`.
pub open spec fn hex_digit(n: int) -> char {
    seq!['0', '1', '2', '3', '4', '5', '6', '7', '8', '9', 'a', 'b', 'c', 'd', 'e', 'f'][n]
}

/// Each byte as two lowercase hexadecimal digits, high half first.
pub open spec fn hex_lower(data: Seq<u8>) -> Seq<char>
    decreases data.len(),
{
    if data.len() == 0 {
        Seq::empty()
    } else {
        hex_lower(data.drop_last()) + seq![
            hex_digit(data.last() as int / 16),
            hex_digit(data.last() as int % 16),
        ]
    }
}

/// `hex::encode`: each byte of `data` as two lowercase hexadecimal digits.
#[verifier::external_body]
fn hex_encode(data: &[u8]) -> (r: String)
    ensures
        r@ == hex_lower(data@),
{
    hex::encode(data)
}

/// The hex string is twice as long as the bytes and all ASCII.
pub proof fn lemma_hex_lower_shape(data: Seq<u8>)
    ensures
        hex_lower(data).len() == 2 * data.len(),
        vstd::utf8::is_ascii_chars(hex_lower(data)),
    decreases data.len(),
{
    if data.len() > 0 {
        lemma_hex_lower_shape(data.drop_last());
        let h = hex_lower(data.drop_last());
        let t = seq![hex_digit(data.last() as int / 16), hex_digit(data.last() as int % 16)];
        assert forall|i: int| 0 <= i < (h + t).len() implies '\0' <= #[trigger] (h + t)[i] <= '\u{7f}' by {
            if i < h.len() {
                assert((h + t)[i] == h[i]);
            } else {
                assert((h + t)[i] == t[i - h.len()]);
            }
        }
    }
}

/// The bytes of the deep hashes of `srcs`, one after the other.
pub open spec fn joined_hashes(hashes: Seq<Seq<char>>, srcs: Seq<usize>) -> Seq<u8>
    decreases srcs.len(),
{
    if srcs.len() == 0 {
        Seq::empty()
    } else {
        joined_hashes(hashes, srcs.drop_last()) + encode_utf8(hashes[srcs.last() as int])
    }
}

/// What is hashed for unit `v`: its own hash bytes, then the deep hash of each
/// unit it imports from, in the order the graph lists them.
pub open spec fn deep_hash_input(
    units: Seq<TranslationUnit>,
    edges: Seq<(usize, usize)>,
    hashes: Seq<Seq<char>>,
    v: int,
) -> Seq<u8> {
    units[v].base_hash@ + joined_hashes(hashes, incoming_sources(edges, v as usize))
}

/// The deep hash that unit `v` must have, given the others.
pub open spec fn deep_hash_of(
    units: Seq<TranslationUnit>,
    edges: Seq<(usize, usize)>,
    hashes: Seq<Seq<char>>,
    v: int,
) -> Seq<char> {
    hex_lower(sha256_spec(deep_hash_input(units, edges, hashes, v)))
}

/// Every unit's deep hash is the hex SHA-256 of its own hash followed by the
/// deep hashes of the units it imports from.
pub open spec fn hashes_consistent(
    units: Seq<TranslationUnit>,
    edges: Seq<(usize, usize)>,
    hashes: Seq<Seq<char>>,
) -> bool {
    &&& hashes.len() == units.len()
    &&& forall|v: int| 0 <= v < units.len() ==> #[trigger] hashes[v] == deep_hash_of(units, edges, hashes, v)
}


proof fn lemma_joined_hashes_agree(h1: Seq<Seq<char>>, h2: Seq<Seq<char>>, srcs: Seq<usize>)
    requires
        forall|i: int| 0 <= i < srcs.len() ==> h1[#[trigger] srcs[i] as int] == h2[srcs[i] as int],
    ensures
        joined_hashes(h1, srcs) == joined_hashes(h2, srcs),
    decreases srcs.len(),
{
    if srcs.len() > 0 {
        assert forall|i: int| 0 <= i < srcs.drop_last().len() implies h1[#[trigger] srcs.drop_last()[i] as int]
            == h2[srcs.drop_last()[i] as int] by {
            assert(srcs.drop_last()[i] == srcs[i]);
        }
        lemma_joined_hashes_agree(h1, h2, srcs.drop_last());
        assert(srcs.last() == srcs[srcs.len() - 1]);
    }
}

proof fn lemma_joined_is_flatten(hashes: Seq<Seq<char>>, srcs: Seq<usize>)
    ensures
        joined_hashes(hashes, srcs) == srcs.map_values(|s: usize| encode_utf8(hashes[s as int])).flatten(),
    decreases srcs.len(),
{
    let f = |s: usize| encode_utf8(hashes[s as int]);
    if srcs.len() > 0 {
        lemma_joined_is_flatten(hashes, srcs.drop_last());
        assert(srcs.map_values(f) =~= srcs.drop_last().map_values(f).push(f(srcs.last())));
        srcs.drop_last().map_values(f).lemma_flatten_push(f(srcs.last()));
    } else {
        assert(srcs.map_values(f) =~= Seq::<Seq<u8>>::empty());
    }
}

/// A unit's deep hash chains the deep hashes of the units it imports from,
/// not their own hashes: it is the lowercase hex SHA-256 of the unit's own
/// hash bytes followed by the UTF-8 bytes of the deep hash of each unit with
/// an edge into it, most recently added edge first.
pub proof fn lemma_deep_hash_chains_imports(
    units: Seq<TranslationUnit>,
    edges: Seq<(usize, usize)>,
    hashes: Seq<Seq<char>>,
    v: int,
)
    requires
        hashes_consistent(units, edges, hashes),
        0 <= v < units.len(),
    ensures
        hashes[v] == hex_lower(sha256_spec(
            units[v].base_hash@ + incoming_sources(edges, v as usize).map_values(
                |s: usize| encode_utf8(hashes[s as int]),
            ).flatten(),
        )),
{
    lemma_joined_is_flatten(hashes, incoming_sources(edges, v as usize));
}

/// Two consistent assignments agree on the first `k` units of a topological order.
proof fn lemma_agree_on_prefix(
    units: Seq<TranslationUnit>,
    edges: Seq<(usize, usize)>,
    order: Seq<usize>,
    h1: Seq<Seq<char>>,
    h2: Seq<Seq<char>>,
    k: int,
)
    requires
        0 <= k <= units.len(),
        is_topological_order(order, units.len(), edges),
        edges_within(units.len(), edges),
        hashes_consistent(units, edges, h1),
        hashes_consistent(units, edges, h2),
    ensures
        forall|j: int| 0 <= j < k ==> h1[#[trigger] order[j] as int] == h2[order[j] as int],
    decreases k,
{
    if k > 0 {
        let n = units.len();
        lemma_agree_on_prefix(units, edges, order, h1, h2, k - 1);
        let v = order[k - 1];
        let srcs = incoming_sources(edges, v);
        assert forall|i: int| 0 <= i < srcs.len() implies h1[#[trigger] srcs[i] as int] == h2[srcs[i] as int] by {
            let pos = lemma_sources_earlier(order, n, edges, k - 1, i);
            assert(order[pos] == srcs[i]);
        }
        lemma_joined_hashes_agree(h1, h2, srcs);
        assert(h1[v as int] == deep_hash_of(units, edges, h1, v as int));
        assert(h2[v as int] == deep_hash_of(units, edges, h2, v as int));
    }
}

proof fn lemma_agree_everywhere(
    order: Seq<usize>,
    n: nat,
    edges: Seq<(usize, usize)>,
    h1: Seq<Seq<char>>,
    h2: Seq<Seq<char>>,
)
    requires
        is_topological_order(order, n, edges),
        n <= usize::MAX,
        h1.len() == n,
        h2.len() == n,
        forall|j: int| 0 <= j < n ==> h1[#[trigger] order[j] as int] == h2[order[j] as int],
    ensures
        h1 == h2,
{
    assert forall|v: int| 0 <= v < h1.len() implies h1[v] == h2[v] by {
        assert(order.contains(v as usize));
        let j = choose|j: int| 0 <= j < order.len() && order[j] == v as usize;
        assert(h1[order[j] as int] == h2[order[j] as int]);
    }
    assert(h1 =~= h2);
}

/// Deep hashes are determined by the units and the graph: on a graph without
/// cycles, two assignments that both satisfy the hashing rule are the same.
pub proof fn lemma_deep_hashes_unique(
    units: Seq<TranslationUnit>,
    edges: Seq<(usize, usize)>,
    h1: Seq<Seq<char>>,
    h2: Seq<Seq<char>>,
)
    requires
        units.len() <= usize::MAX,
        is_acyclic(units.len(), edges),
        edges_within(units.len(), edges),
        hashes_consistent(units, edges, h1),
        hashes_consistent(units, edges, h2),
    ensures
        h1 == h2,
{
    let n = units.len();
    let order = choose|order: Seq<usize>| is_topological_order(order, n, edges);
    lemma_agree_on_prefix(units, edges, order, h1, h2, n as int);
    lemma_agree_everywhere(order, n, edges, h1, h2);
}

/// Different hex digits stand for different numbers below 16.
proof fn lemma_hex_digit_injective(i: int, j: int)
    requires
        0 <= i < 16,
        0 <= j < 16,
        hex_digit(i) == hex_digit(j),
    ensures
        i == j,
{
    let d = seq!['0', '1', '2', '3', '4', '5', '6', '7', '8', '9', 'a', 'b', 'c', 'd', 'e', 'f'];
    assert(d[0] == '0' && d[1] == '1' && d[2] == '2' && d[3] == '3' && d[4] == '4' && d[5] == '5'
        && d[6] == '6' && d[7] == '7' && d[8] == '8' && d[9] == '9' && d[10] == 'a' && d[11] == 'b'
        && d[12] == 'c' && d[13] == 'd' && d[14] == 'e' && d[15] == 'f');
    assert(i == 0 || i == 1 || i == 2 || i == 3 || i == 4 || i == 5 || i == 6 || i == 7 || i == 8
        || i == 9 || i == 10 || i == 11 || i == 12 || i == 13 || i == 14 || i == 15);
    assert(j == 0 || j == 1 || j == 2 || j == 3 || j == 4 || j == 5 || j == 6 || j == 7 || j == 8
        || j == 9 || j == 10 || j == 11 || j == 12 || j == 13 || j == 14 || j == 15);
}

/// Different byte strings have different hex forms.
pub proof fn lemma_hex_lower_injective(x: Seq<u8>, y: Seq<u8>)
    requires
        hex_lower(x) == hex_lower(y),
    ensures
        x == y,
    decreases x.len(),
{
    lemma_hex_lower_shape(x);
    lemma_hex_lower_shape(y);
    if x.len() == 0 {
        assert(x =~= y);
    } else {
        let hx = hex_lower(x.drop_last());
        let hy = hex_lower(y.drop_last());
        lemma_hex_lower_shape(x.drop_last());
        lemma_hex_lower_shape(y.drop_last());
        let n = hx.len() as int;
        let full = hex_lower(x);
        assert(full == hx + seq![hex_digit(x.last() as int / 16), hex_digit(x.last() as int % 16)]);
        assert(full == hy + seq![hex_digit(y.last() as int / 16), hex_digit(y.last() as int % 16)]);
        assert(full[n] == hex_digit(x.last() as int / 16));
        assert(full[n] == hex_digit(y.last() as int / 16));
        assert(full[n + 1] == hex_digit(x.last() as int % 16));
        assert(full[n + 1] == hex_digit(y.last() as int % 16));
        lemma_hex_digit_injective(x.last() as int / 16, y.last() as int / 16);
        lemma_hex_digit_injective(x.last() as int % 16, y.last() as int % 16);
        assert(hx =~= full.subrange(0, n));
        assert(hy =~= full.subrange(0, n));
        lemma_hex_lower_injective(x.drop_last(), y.drop_last());
        assert(x.last() == y.last());
        assert(x =~= x.drop_last().push(x.last()));
        assert(y =~= y.drop_last().push(y.last()));
    }
}

/// SHA-256 gives `x` and `y` different digests unless they are the same bytes.
pub open spec fn digests_distinct(x: Seq<u8>, y: Seq<u8>) -> bool {
    x != y ==> sha256_spec(x) != sha256_spec(y)
}

/// A unit that imports exactly one unit: when the deep hash of that import
/// differs between two consistent assignments and the unit's own hash does
/// not, the unit's deep hash differs too (SHA-256 not colliding there).
proof fn lemma_single_import_propagates(
    units: Seq<TranslationUnit>,
    units2: Seq<TranslationUnit>,
    edges: Seq<(usize, usize)>,
    h: Seq<Seq<char>>,
    h2: Seq<Seq<char>>,
    s: usize,
    v: int,
)
    requires
        h[v] == deep_hash_of(units, edges, h, v),
        h2[v] == deep_hash_of(units2, edges, h2, v),
        incoming_sources(edges, v as usize) == seq![s],
        units[v].base_hash@ == units2[v].base_hash@,
        h[s as int] != h2[s as int],
        digests_distinct(deep_hash_input(units, edges, h, v), deep_hash_input(units2, edges, h2, v)),
    ensures
        h[v] != h2[v],
{
    let in1 = deep_hash_input(units, edges, h, v);
    let in2 = deep_hash_input(units2, edges, h2, v);
    lemma_joined_single(h, s);
    lemma_joined_single(h2, s);
    assert(in1 == units[v].base_hash@ + encode_utf8(h[s as int]));
    assert(in2 == units[v].base_hash@ + encode_utf8(h2[s as int]));
    lemma_suffix_differs(units[v].base_hash@, h[s as int], h2[s as int]);
    assert(in1 != in2);
    assert(sha256_spec(in1) != sha256_spec(in2));
    if h[v] == h2[v] {
        lemma_hex_lower_injective(sha256_spec(in1), sha256_spec(in2));
    }
}

proof fn lemma_joined_single(hashes: Seq<Seq<char>>, s: usize)
    ensures
        joined_hashes(hashes, seq![s]) == encode_utf8(hashes[s as int]),
{
    assert(seq![s].drop_last() =~= Seq::<usize>::empty());
    assert(joined_hashes(hashes, Seq::<usize>::empty()) == Seq::<u8>::empty());
    assert(joined_hashes(hashes, seq![s]) =~= encode_utf8(hashes[s as int]));
}

proof fn lemma_suffix_differs(base: Seq<u8>, c1: Seq<char>, c2: Seq<char>)
    requires
        c1 != c2,
    ensures
        base + encode_utf8(c1) != base + encode_utf8(c2),
{
    let e1 = encode_utf8(c1);
    let e2 = encode_utf8(c2);
    if base + e1 == base + e2 {
        assert(e1 =~= (base + e1).subrange(base.len() as int, (base + e1).len() as int));
        assert(e2 =~= (base + e2).subrange(base.len() as int, (base + e2).len() as int));
        vstd::utf8::encode_utf8_decode_utf8(c1);
        vstd::utf8::encode_utf8_decode_utf8(c2);
    }
}

/// Editing a unit reaches the units that import it through others: for a
/// chain a -> b -> m, where a imports nothing, b imports only a and m imports
/// only b, two unit lists whose own hashes for a have different SHA-256
/// digests and whose own hashes for b and m agree give b, and so m, different
/// deep hashes, as long as SHA-256 does not map two different inputs of b or
/// of m to one digest.
pub proof fn lemma_deep_hash_follows_chain(
    units: Seq<TranslationUnit>,
    units2: Seq<TranslationUnit>,
    edges: Seq<(usize, usize)>,
    h: Seq<Seq<char>>,
    h2: Seq<Seq<char>>,
    a: usize,
    b: usize,
    m: usize,
)
    requires
        hashes_consistent(units, edges, h),
        hashes_consistent(units2, edges, h2),
        units.len() == units2.len(),
        a < units.len(),
        b < units.len(),
        m < units.len(),
        incoming_sources(edges, a) == Seq::<usize>::empty(),
        incoming_sources(edges, b) == seq![a],
        incoming_sources(edges, m) == seq![b],
        sha256_spec(units[a as int].base_hash@) != sha256_spec(units2[a as int].base_hash@),
        units[b as int].base_hash@ == units2[b as int].base_hash@,
        units[m as int].base_hash@ == units2[m as int].base_hash@,
        digests_distinct(deep_hash_input(units, edges, h, b as int), deep_hash_input(units2, edges, h2, b as int)),
        digests_distinct(deep_hash_input(units, edges, h, m as int), deep_hash_input(units2, edges, h2, m as int)),
    ensures
        h[b as int] != h2[b as int],
        h[m as int] != h2[m as int],
{
    assert(deep_hash_input(units, edges, h, a as int) =~= units[a as int].base_hash@);
    assert(deep_hash_input(units2, edges, h2, a as int) =~= units2[a as int].base_hash@);
    if h[a as int] == h2[a as int] {
        lemma_hex_lower_injective(sha256_spec(units[a as int].base_hash@), sha256_spec(units2[a as int].base_hash@));
    }
    assert(h[b as int] == deep_hash_of(units, edges, h, b as int));
    assert(h2[b as int] == deep_hash_of(units2, edges, h2, b as int));
    lemma_single_import_propagates(units, units2, edges, h, h2, a, b as int);
    assert(h[m as int] == deep_hash_of(units, edges, h, m as int));
    assert(h2[m as int] == deep_hash_of(units2, edges, h2, m as int));
    lemma_single_import_propagates(units, units2, edges, h, h2, b, m as int);
}

/// Appends the bytes of `src` to `buf`.
fn append_bytes(buf: &mut Vec<u8>, src: &[u8])
    ensures
        final(buf)@ == old(buf)@ + src@,
{
    let mut i: usize = 0;
    while i < src.len()
        invariant
            0 <= i <= src.len(),
            buf@ == old(buf)@ + src@.take(i as int),
        decreases src.len() - i,
    {
        buf.push(src[i]);
        i += 1;
        assert(buf@ =~= old(buf)@ + src@.take(i as int));
    }
    assert(src@.take(src.len() as int) =~= src@);
}

/// The deep hash of unit `v`, from the deep hashes of the units it imports from.
fn deep_hash_at(
    units: &Vec<TranslationUnit>,
    graph: &ModuleGraph,
    hashes: &Vec<String>,
    v: usize,
) -> (h: String)
    requires
        v < units.len(),
        graph.num_nodes() == units.len(),
        hashes.len() == units.len(),
    ensures
        h@ == deep_hash_of(units@, graph.edges(), string_views(hashes@), v as int),
        h@.len() == 64,
        vstd::utf8::is_ascii_chars(h@),
{
    let preds = graph.predecessors(v);
    let ghost views = string_views(hashes@);
    let mut buf: Vec<u8> = Vec::new();
    append_bytes(&mut buf, units[v].base_hash.as_slice());
    let mut i: usize = 0;
    while i < preds.len()
        invariant
            0 <= i <= preds.len(),
            hashes.len() == units.len(),
            views == string_views(hashes@),
            preds@ == incoming_sources(graph.edges(), v),
            forall|k: int| 0 <= k < preds@.len() ==> #[trigger] preds@[k] < graph.num_nodes(),
            graph.num_nodes() == units.len(),
            buf@ == units@[v as int].base_hash@ + joined_hashes(views, preds@.take(i as int)),
        decreases preds.len() - i,
    {
        let p = preds[i];
        append_bytes(&mut buf, hashes[p].as_str().as_bytes());
        assert(preds@.take(i + 1).drop_last() =~= preds@.take(i as int));
        i += 1;
    }
    assert(preds@.take(preds.len() as int) =~= preds@);
    let digest = sha256(buf.as_slice());
    proof {
        lemma_hex_lower_shape(digest@);
    }
    hex_encode(digest.as_slice())
}

/// Setting the hash of the unit at position `k` of a topological order leaves
/// the required hash of every unit at positions `0..=k` as it was.
proof fn lemma_update_keeps_earlier(
    units: Seq<TranslationUnit>,
    edges: Seq<(usize, usize)>,
    order: Seq<usize>,
    views: Seq<Seq<char>>,
    k: int,
    h: Seq<char>,
)
    requires
        is_topological_order(order, units.len(), edges),
        edges_within(units.len(), edges),
        views.len() == units.len(),
        0 <= k < order.len(),
    ensures
        forall|j: int| 0 <= j <= k ==> deep_hash_of(units, edges, views.update(order[k] as int, h), #[trigger] order[j] as int)
            == deep_hash_of(units, edges, views, order[j] as int),
{
    let n = units.len();
    let views2 = views.update(order[k] as int, h);
    assert forall|j: int| 0 <= j <= k implies deep_hash_of(units, edges, views2, #[trigger] order[j] as int)
        == deep_hash_of(units, edges, views, order[j] as int) by {
        let srcs = incoming_sources(edges, order[j]);
        assert forall|i: int| 0 <= i < srcs.len() implies views2[#[trigger] srcs[i] as int] == views[srcs[i] as int] by {
            let pos = lemma_sources_earlier(order, n, edges, j, i);
            assert(order[pos] != order[k]);
        }
        lemma_joined_hashes_agree(views2, views, srcs);
    }
}

/// The deep hash of every unit, computed along a topological order of the
/// graph; `None` exactly when the imports form a cycle.
pub fn deep_hashes(units: &Vec<TranslationUnit>, graph: &ModuleGraph) -> (r: Option<Vec<String>>)
    requires
        graph.num_nodes() == units.len(),
    ensures
        r is None <==> !is_acyclic(graph.num_nodes(), graph.edges()),
        r matches Some(h) ==> hashes_consistent(units@, graph.edges(), string_views(h@)),
        r matches Some(h) ==> forall|i: int| 0 <= i < h@.len() ==> (#[trigger] h@[i])@.len() == 64
            && vstd::utf8::is_ascii_chars(h@[i]@),
{
    let n = graph.node_count();
    let order = match graph.topological_order() {
        Some(order) => order,
        None => return None,
    };
    let mut hashes: Vec<String> = Vec::new();
    let mut i: usize = 0;
    while i < n
        invariant
            0 <= i <= n,
            hashes.len() == i,
        decreases n - i,
    {
        hashes.push(String::new());
        i += 1;
    }
    let mut k: usize = 0;
    while k < n
        invariant
            0 <= k <= n,
            n == units.len(),
            n == graph.num_nodes(),
            edges_within(graph.num_nodes(), graph.edges()),
            is_topological_order(order@, graph.num_nodes(), graph.edges()),
            hashes.len() == n,
            forall|j: int| 0 <= j < k ==> (#[trigger] string_views(hashes@)[order@[j] as int])
                == deep_hash_of(units@, graph.edges(), string_views(hashes@), order@[j] as int),
            forall|j: int| 0 <= j < k ==> (#[trigger] hashes@[order@[j] as int])@.len() == 64
                && vstd::utf8::is_ascii_chars(hashes@[order@[j] as int]@),
        decreases n - k,
    {
        let v = order[k];
        let h = deep_hash_at(units, graph, &hashes, v);
        let ghost before = string_views(hashes@);
        let ghost before_hashes = hashes@;
        proof {
            lemma_update_keeps_earlier(units@, graph.edges(), order@, before, k as int, h@);
        }
        hashes.set(v, h);
        proof {
            assert(string_views(hashes@) =~= before.update(v as int, h@));
            assert forall|j: int| 0 <= j < k + 1 implies (#[trigger] string_views(hashes@)[order@[j] as int])
                == deep_hash_of(units@, graph.edges(), string_views(hashes@), order@[j] as int) by {
                if j < k {
                    assert(order@[j] != order@[k as int]);
                }
            }
            assert forall|j: int| 0 <= j < k + 1 implies (#[trigger] hashes@[order@[j] as int])@.len() == 64
                && vstd::utf8::is_ascii_chars(hashes@[order@[j] as int]@) by {
                if j < k {
                    assert(order@[j] != order@[k as int]);
                    assert(hashes@[order@[j] as int] == before_hashes[order@[j] as int]);
                }
            }
        }
        k += 1;
    }
    proof {
        assert forall|v: int| 0 <= v < units.len() implies #[trigger] string_views(hashes@)[v]
            == deep_hash_of(units@, graph.edges(), string_views(hashes@), v) by {
            assert(order@.contains(v as usize));
            let j = choose|j: int| 0 <= j < order@.len() && order@[j] == v as usize;
            assert(string_views(hashes@)[order@[j] as int] == deep_hash_of(units@, graph.edges(), string_views(hashes@), order@[j] as int));
        }
        assert forall|v: int| 0 <= v < hashes@.len() implies (#[trigger] hashes@[v])@.len() == 64
            && vstd::utf8::is_ascii_chars(hashes@[v]@) by {
            assert(order@.contains(v as usize));
            let j = choose|j: int| 0 <= j < order@.len() && order@[j] == v as usize;
            assert(hashes@[order@[j] as int]@.len() == 64);
        }
    }
    Some(hashes)
}

/// The SHA-256 digest of a source file's contents: a unit's own hash.
pub fn content_hash(data: &[u8]) -> (r: Vec<u8>)
    ensures
        r@ == sha256_spec(data@),
        r@.len() == 32,
{
    sha256(data)
}

} // verus!
