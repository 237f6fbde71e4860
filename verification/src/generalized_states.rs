//! Stable identities of the generalized dictionary-product WFST: product
//! states and the continuation states of multi-label emission chains, with
//! a transaction-local batch that extends the registry without copying it.
use vstd::prelude::*;
use std::collections::TryReserveError;
use std::sync::Arc;
use rustc_hash::{FxBuildHasher, FxHashMap};
use crate::generalized_limits::{checked_state_count, GeneralizedWfstError, GeneralizedWfstResource};

verus! {

/// Exact product identity: dictionary node, query offset and scaled cost.
#[derive(Clone, Copy, Debug, PartialEq, Eq, Structural)]
pub struct ProductState {
    /// The dictionary node's ID.
    pub dict_node_id: u32,
    /// Byte offset into the query.
    pub query_byte_pos: usize,
    /// Scaled cost spent so far.
    pub cost: usize,
}

/// A multi-label operation emitted one label pair per state, ending at `target`.
/// Shared by all its continuation states, so it is hashed once per chain.
#[derive(Clone, Debug, PartialEq, Eq, Hash)]
pub struct EmissionChain {
    /// Labels read.
    pub input: Vec<char>,
    /// Labels written.
    pub output: Vec<char>,
    /// The state the chain ends in.
    pub target: u32,
}

/// A chain by its labels and target.
pub type ChainKey = (Seq<char>, Seq<char>, u32);

impl EmissionChain {
    /// The chain's labels and target.
    pub open spec fn spec_key(&self) -> ChainKey {
        (self.input@, self.output@, self.target)
    }

    /// The number of label pairs: the longer of the two label lists.
    pub open spec fn spec_width(&self) -> nat {
        if self.input@.len() >= self.output@.len() { self.input@.len() } else { self.output@.len() }
    }
}

/// A continuation state inside a chain: `position` label pairs emitted, then
/// on to `next`.
#[derive(Clone, Debug)]
pub struct EmitState {
    /// The chain, shared with the chain's other continuations.
    pub chain: Arc<EmissionChain>,
    /// Label pairs emitted before this state.
    pub position: usize,
    /// The state after this one.
    pub next: u32,
}

/// A registered WFST state.
#[derive(Clone, Debug)]
pub enum RegisteredState {
    /// A product state.
    Product(ProductState),
    /// A chain continuation state.
    Emit(EmitState),
}

/// A registered state as plain values.
pub enum StateView {
    /// A product state.
    Product(ProductState),
    /// A chain continuation: chain key, position and next state.
    Emit(ChainKey, usize, u32),
}

/// The plain-value view of a registered state.
pub open spec fn state_view(s: RegisteredState) -> StateView {
    match s {
        RegisteredState::Product(p) => StateView::Product(p),
        RegisteredState::Emit(e) => StateView::Emit(e.chain.spec_key(), e.position, e.next),
    }
}

/// The plain-value views of registered states.
pub open spec fn states_view(s: Seq<RegisteredState>) -> Seq<StateView> {
    s.map_values(|x: RegisteredState| state_view(x))
}

/// A map from product states, by their fields, to state IDs.
pub type ProductMap = FxHashMap<(u32, usize, usize), u32>;

/// A map from chains to the ID of their first continuation.
pub type ChainMap = FxHashMap<Arc<EmissionChain>, u32>;

/// The entries of a product map.
pub uninterp spec fn product_ids(m: ProductMap) -> Map<(u32, usize, usize), u32>;

/// The entries of a chain map, by the labels' scalars.
pub uninterp spec fn chain_ids(m: ChainMap) -> Map<ChainKey, u32>;

/// The map key of a product state.
pub open spec fn product_key(p: ProductState) -> (u32, usize, usize) {
    (p.dict_node_id, p.query_byte_pos, p.cost)
}

/// Calls `FxHashMap::with_capacity_and_hasher`: a new map holds no entries.
#[verifier::external_body]
fn product_map_with_capacity(capacity: usize) -> (r: ProductMap)
    ensures
        product_ids(r).dom().is_empty(),
{
    FxHashMap::with_capacity_and_hasher(capacity, FxBuildHasher)
}

/// Calls `HashMap::get`: the ID stored under the product, if any.
#[verifier::external_body]
fn product_map_get(m: &ProductMap, p: ProductState) -> (r: Option<u32>)
    ensures
        r == (if product_ids(*m).contains_key(product_key(p)) { Some(product_ids(*m)[product_key(p)]) } else { None::<u32> }),
{
    m.get(&(p.dict_node_id, p.query_byte_pos, p.cost)).copied()
}

/// Calls `HashMap::insert`: the product maps to `id` afterwards.
#[verifier::external_body]
fn product_map_insert(m: &mut ProductMap, p: ProductState, id: u32)
    ensures
        product_ids(*final(m)) == product_ids(*old(m)).insert(product_key(p), id),
{
    m.insert((p.dict_node_id, p.query_byte_pos, p.cost), id);
}

/// Calls `HashMap::try_reserve`: the entries are unchanged whatever the outcome.
#[verifier::external_body]
fn product_map_try_reserve(m: &mut ProductMap, additional: usize) -> (r: Result<(), TryReserveError>)
    ensures
        product_ids(*final(m)) == product_ids(*old(m)),
{
    m.try_reserve(additional)
}

/// Calls `FxHashMap::with_capacity_and_hasher`: a new map holds no entries.
#[verifier::external_body]
fn chain_map_with_capacity(capacity: usize) -> (r: ChainMap)
    ensures
        chain_ids(r).dom().is_empty(),
{
    FxHashMap::with_capacity_and_hasher(capacity, FxBuildHasher)
}

/// Calls `HashMap::get`: the ID stored under the chain, if any.
#[verifier::external_body]
fn chain_map_get(m: &ChainMap, chain: &EmissionChain) -> (r: Option<u32>)
    ensures
        r == (if chain_ids(*m).contains_key(chain.spec_key()) { Some(chain_ids(*m)[chain.spec_key()]) } else { None::<u32> }),
{
    m.get(chain).copied()
}

/// Calls `HashMap::insert`: the chain maps to `id` afterwards (chains are
/// equal when their labels and targets are).
#[verifier::external_body]
fn chain_map_insert(m: &mut ChainMap, chain: Arc<EmissionChain>, id: u32)
    ensures
        chain_ids(*final(m)) == chain_ids(*old(m)).insert(chain.spec_key(), id),
{
    m.insert(chain, id);
}

/// Calls `HashMap::len`: the number of staged products.
#[verifier::external_body]
fn product_map_len(m: &ProductMap) -> (r: usize)
    ensures
        r == product_ids(*m).len(),
{
    m.len()
}

/// Calls `HashMap::len`: the number of staged chains.
#[verifier::external_body]
fn chain_map_len(m: &ChainMap) -> (r: usize)
    ensures
        r == chain_ids(*m).len(),
{
    m.len()
}

/// Calls `Arc::clone`: another handle on the same chain.
#[verifier::external_body]
fn share_chain(chain: &Arc<EmissionChain>) -> (r: Arc<EmissionChain>)
    ensures
        r.spec_key() == chain.spec_key(),
{
    Arc::clone(chain)
}

/// Calls `HashMap::try_reserve`: the entries are unchanged whatever the outcome.
#[verifier::external_body]
fn chain_map_try_reserve(m: &mut ChainMap, additional: usize) -> (r: Result<(), TryReserveError>)
    ensures
        chain_ids(*final(m)) == chain_ids(*old(m)),
{
    m.try_reserve(additional)
}

/// The initial product state: the dictionary root at the query's start, free.
pub open spec fn start_product() -> ProductState {
    ProductState { dict_node_id: 0, query_byte_pos: 0, cost: 0 }
}

/// Shared, stable identities; cached transitions may be evicted, IDs are not.
pub struct StateRegistry {
    product_to_id: ProductMap,
    chain_to_id: ChainMap,
    id_to_state: Vec<RegisteredState>,
}

/// The products and chain starts of `states`, IDs counted from `base`, are
/// what `products` and `chains` map to those IDs.
pub open spec fn maps_point_into(products: Map<(u32, usize, usize), u32>, chains: Map<ChainKey, u32>,
    states: Seq<StateView>, base: int) -> bool {
    &&& forall|k: (u32, usize, usize)| #[trigger] products.contains_key(k) ==> {
            &&& base <= products[k] < base + states.len()
            &&& states[products[k] - base] == StateView::Product(ProductState { dict_node_id: k.0, query_byte_pos: k.1, cost: k.2 })
        }
    &&& forall|k: ChainKey| #[trigger] chains.contains_key(k) ==> {
            &&& base <= chains[k] < base + states.len()
            &&& states[chains[k] - base] matches StateView::Emit(key, position, _) && key == k && position == 1
        }
}

/// The product index after registering `s` one state after another, the
/// first with ID `base`: each product maps to the ID it was registered under.
pub open spec fn products_after(m: Map<(u32, usize, usize), u32>, s: Seq<StateView>, base: int)
    -> Map<(u32, usize, usize), u32>
    decreases s.len(),
{
    if s.len() == 0 {
        m
    } else {
        let prev = products_after(m, s.drop_last(), base);
        match s.last() {
            StateView::Product(p) => prev.insert(product_key(p), (base + s.len() - 1) as u32),
            StateView::Emit(_, _, _) => prev,
        }
    }
}

/// The chain index after registering `s` one state after another, the first
/// with ID `base`: each chain maps to the ID of its first continuation.
pub open spec fn chains_after(m: Map<ChainKey, u32>, s: Seq<StateView>, base: int) -> Map<ChainKey, u32>
    decreases s.len(),
{
    if s.len() == 0 {
        m
    } else {
        let prev = chains_after(m, s.drop_last(), base);
        match s.last() {
            StateView::Emit(key, position, _) => if position == 1 {
                prev.insert(key, (base + s.len() - 1) as u32)
            } else {
                prev
            },
            StateView::Product(_) => prev,
        }
    }
}

/// Every product and every chain start of `states` is indexed under its own
/// ID, counted from `base`: none of them is staged twice.
pub open spec fn staged_once(products: Map<(u32, usize, usize), u32>, chains: Map<ChainKey, u32>,
    states: Seq<StateView>, base: int) -> bool {
    forall|j: int| 0 <= j < states.len() ==> match #[trigger] states[j] {
        StateView::Product(p) => products.contains_key(product_key(p)) && products[product_key(p)] == base + j,
        StateView::Emit(key, position, _) => position == 1 ==> chains.contains_key(key) && chains[key] == base + j,
    }
}

/// Along the first `n` staged states, a product of the batch index is found
/// under its staged ID once its state has been passed, and every other key
/// keeps its entry in `m`.
proof fn lemma_products_after_prefix(m: Map<(u32, usize, usize), u32>, products: Map<(u32, usize, usize), u32>,
    chains: Map<ChainKey, u32>, s: Seq<StateView>, base: int, k: (u32, usize, usize), n: int)
    requires
        maps_point_into(products, chains, s, base),
        staged_once(products, chains, s, base),
        0 <= n <= s.len(),
        base + s.len() <= u32::MAX,
    ensures
        products.contains_key(k) && products[k] - base < n ==> {
            &&& products_after(m, s.take(n), base).contains_key(k)
            &&& products_after(m, s.take(n), base)[k] == products[k]
        },
        !(products.contains_key(k) && products[k] - base < n) ==> {
            &&& products_after(m, s.take(n), base).contains_key(k) == m.contains_key(k)
            &&& m.contains_key(k) ==> products_after(m, s.take(n), base)[k] == m[k]
        },
    decreases n,
{
    if n == 0 {
        assert(s.take(0) =~= Seq::<StateView>::empty());
    } else {
        lemma_products_after_prefix(m, products, chains, s, base, k, n - 1);
        assert(s.take(n).drop_last() =~= s.take(n - 1));
        assert(s.take(n).last() == s[n - 1]);
        let st = s[n - 1];
        if products.contains_key(k) && products[k] - base == n - 1 {
            assert(s[products[k] - base] == StateView::Product(
                ProductState { dict_node_id: k.0, query_byte_pos: k.1, cost: k.2 }));
        }
        match st {
            StateView::Product(p) => {
                assert(products[product_key(p)] == base + (n - 1));
            },
            StateView::Emit(_, _, _) => {},
        }
    }
}

/// Along the first `n` staged states, a chain of the batch index is found
/// under its staged ID once its first continuation has been passed, and every
/// other key keeps its entry in `m`.
proof fn lemma_chains_after_prefix(m: Map<ChainKey, u32>, products: Map<(u32, usize, usize), u32>,
    chains: Map<ChainKey, u32>, s: Seq<StateView>, base: int, k: ChainKey, n: int)
    requires
        maps_point_into(products, chains, s, base),
        staged_once(products, chains, s, base),
        0 <= n <= s.len(),
        base + s.len() <= u32::MAX,
    ensures
        chains.contains_key(k) && chains[k] - base < n ==> {
            &&& chains_after(m, s.take(n), base).contains_key(k)
            &&& chains_after(m, s.take(n), base)[k] == chains[k]
        },
        !(chains.contains_key(k) && chains[k] - base < n) ==> {
            &&& chains_after(m, s.take(n), base).contains_key(k) == m.contains_key(k)
            &&& m.contains_key(k) ==> chains_after(m, s.take(n), base)[k] == m[k]
        },
    decreases n,
{
    if n == 0 {
        assert(s.take(0) =~= Seq::<StateView>::empty());
    } else {
        lemma_chains_after_prefix(m, products, chains, s, base, k, n - 1);
        assert(s.take(n).drop_last() =~= s.take(n - 1));
        assert(s.take(n).last() == s[n - 1]);
        let st = s[n - 1];
        if chains.contains_key(k) && chains[k] - base == n - 1 {
            assert(s[chains[k] - base] matches StateView::Emit(key, position, _) && key == k && position == 1);
        }
        match st {
            StateView::Emit(key, position, _) => {
                if position == 1 {
                    assert(chains[key] == base + (n - 1));
                }
            },
            StateView::Product(_) => {},
        }
    }
}

/// Committing a staged batch keeps every identity it handed out: each product
/// and chain of the batch is found under the ID the batch gave it, and every
/// other entry of the registry's indexes is left as it was.
pub proof fn lemma_commit_keeps_staged_ids(registered_products: Map<(u32, usize, usize), u32>,
    registered_chains: Map<ChainKey, u32>, products: Map<(u32, usize, usize), u32>, chains: Map<ChainKey, u32>,
    staged: Seq<StateView>, base: int)
    requires
        maps_point_into(products, chains, staged, base),
        staged_once(products, chains, staged, base),
        0 <= base,
        base + staged.len() <= u32::MAX,
    ensures
        forall|k: (u32, usize, usize)| #[trigger] products_after(registered_products, staged, base).contains_key(k) <==>
            (products.contains_key(k) || registered_products.contains_key(k)),
        forall|k: (u32, usize, usize)| #[trigger] products_after(registered_products, staged, base).contains_key(k) ==>
            products_after(registered_products, staged, base)[k] ==
            (if products.contains_key(k) { products[k] } else { registered_products[k] }),
        forall|k: ChainKey| #[trigger] chains_after(registered_chains, staged, base).contains_key(k) <==>
            (chains.contains_key(k) || registered_chains.contains_key(k)),
        forall|k: ChainKey| #[trigger] chains_after(registered_chains, staged, base).contains_key(k) ==>
            chains_after(registered_chains, staged, base)[k] ==
            (if chains.contains_key(k) { chains[k] } else { registered_chains[k] }),
{
    assert(staged.take(staged.len() as int) =~= staged);
    let n = staged.len() as int;
    assert forall|k: (u32, usize, usize)| #[trigger] products_after(registered_products, staged, base).contains_key(k) <==>
        (products.contains_key(k) || registered_products.contains_key(k)) by {
        lemma_products_after_prefix(registered_products, products, chains, staged, base, k, n);
    }
    assert forall|k: (u32, usize, usize)| #[trigger] products_after(registered_products, staged, base).contains_key(k) implies
        products_after(registered_products, staged, base)[k] ==
        (if products.contains_key(k) { products[k] } else { registered_products[k] }) by {
        lemma_products_after_prefix(registered_products, products, chains, staged, base, k, n);
    }
    assert forall|k: ChainKey| #[trigger] chains_after(registered_chains, staged, base).contains_key(k) <==>
        (chains.contains_key(k) || registered_chains.contains_key(k)) by {
        lemma_chains_after_prefix(registered_chains, products, chains, staged, base, k, n);
    }
    assert forall|k: ChainKey| #[trigger] chains_after(registered_chains, staged, base).contains_key(k) implies
        chains_after(registered_chains, staged, base)[k] ==
        (if chains.contains_key(k) { chains[k] } else { registered_chains[k] }) by {
        lemma_chains_after_prefix(registered_chains, products, chains, staged, base, k, n);
    }
}

impl StateRegistry {
    /// The registered states, by ID.
    pub closed spec fn spec_states(&self) -> Seq<StateView> {
        states_view(self.id_to_state@)
    }

    /// The product index.
    pub closed spec fn spec_products(&self) -> Map<(u32, usize, usize), u32> {
        product_ids(self.product_to_id)
    }

    /// The chain index.
    pub closed spec fn spec_chains(&self) -> Map<ChainKey, u32> {
        chain_ids(self.chain_to_id)
    }

    /// At least the start state, IDs below the no-state sentinel, and the
    /// indexes point at matching states.
    pub closed spec fn wf(&self) -> bool {
        &&& 1 <= self.id_to_state@.len() <= u32::MAX
        &&& maps_point_into(self.spec_products(), self.spec_chains(), self.spec_states(), 0)
    }

    /// Every product and chain of a well-formed registry names one of its
    /// states, and IDs fit below the no-state sentinel.
    pub proof fn lemma_indexes_point_into_states(&self)
        requires
            self.wf(),
        ensures
            maps_point_into(self.spec_products(), self.spec_chains(), self.spec_states(), 0),
            1 <= self.spec_states().len() <= u32::MAX,
    {
    }

    /// A registry holding only the start product state, with ID 0.
    pub fn new() -> (r: Self)
        ensures
            r.wf(),
            r.spec_states() == seq![StateView::Product(start_product())],
            r.spec_products() == Map::<(u32, usize, usize), u32>::empty().insert(product_key(start_product()), 0),
            r.spec_chains() == Map::<ChainKey, u32>::empty(),
    {
        let start = ProductState { dict_node_id: 0, query_byte_pos: 0, cost: 0 };
        let mut product_to_id: ProductMap = product_map_with_capacity(1);
        product_map_insert(&mut product_to_id, start, 0);
        let mut id_to_state: Vec<RegisteredState> = Vec::new();
        id_to_state.push(RegisteredState::Product(start));
        let r = StateRegistry { product_to_id, chain_to_id: chain_map_with_capacity(0), id_to_state };
        proof {
            assert(r.spec_states() =~= seq![StateView::Product(start_product())]);
            assert(r.spec_chains() =~= Map::<ChainKey, u32>::empty());
        }
        r
    }

    /// The state registered under `state`.
    pub fn get(&self, state: u32) -> (r: Option<&RegisteredState>)
        ensures
            match r {
                Some(s) => state < self.spec_states().len() && state_view(*s) == self.spec_states()[state as int],
                None => state >= self.spec_states().len(),
            },
    {
        if (state as usize) < self.id_to_state.len() {
            Some(&self.id_to_state[state as usize])
        } else {
            None
        }
    }

    /// Number of registered states.
    pub fn len(&self) -> (r: usize)
        ensures
            r == self.spec_states().len(),
    {
        self.id_to_state.len()
    }

    /// The ID registered for the product `state`, if any.
    pub fn product_id(&self, state: ProductState) -> (r: Option<u32>)
        ensures
            r == (if self.spec_products().contains_key(product_key(state)) {
                Some(self.spec_products()[product_key(state)])
            } else {
                None::<u32>
            }),
    {
        product_map_get(&self.product_to_id, state)
    }

    /// The ID of the first continuation registered for `chain`, if any.
    pub fn chain_id(&self, chain: &EmissionChain) -> (r: Option<u32>)
        ensures
            r == (if self.spec_chains().contains_key(chain.spec_key()) {
                Some(self.spec_chains()[chain.spec_key()])
            } else {
                None::<u32>
            }),
    {
        chain_map_get(&self.chain_to_id, chain)
    }

    /// Reserve room for more products, chains and states; the contents are
    /// unchanged whatever the outcome.
    pub fn try_reserve_additional(&mut self, product_count: usize, chain_count: usize, state_count: usize)
        -> (r: Result<(), TryReserveError>)
        requires
            old(self).wf(),
        ensures
            final(self).wf(),
            final(self).spec_states() == old(self).spec_states(),
            final(self).spec_products() == old(self).spec_products(),
            final(self).spec_chains() == old(self).spec_chains(),
    {
        match product_map_try_reserve(&mut self.product_to_id, product_count) {
            Err(e) => return Err(e),
            Ok(()) => {},
        }
        match chain_map_try_reserve(&mut self.chain_to_id, chain_count) {
            Err(e) => return Err(e),
            Ok(()) => {},
        }
        self.id_to_state.try_reserve(state_count)
    }

    /// Register `states` in order, each under the next ID: products and chain
    /// starts become findable under their IDs. Capacity should have been
    /// reserved beforehand.
    pub fn commit_prepared(&mut self, states: Vec<RegisteredState>)
        requires
            old(self).wf(),
            old(self).spec_states().len() + states@.len() <= u32::MAX,
        ensures
            final(self).wf(),
            final(self).spec_states() == old(self).spec_states() + states_view(states@),
            final(self).spec_products() == products_after(old(self).spec_products(), states_view(states@),
                old(self).spec_states().len() as int),
            final(self).spec_chains() == chains_after(old(self).spec_chains(), states_view(states@),
                old(self).spec_states().len() as int),
    {
        let ghost old_states = self.spec_states();
        let ghost old_products = self.spec_products();
        let ghost old_chains = self.spec_chains();
        let ghost base: int = old_states.len() as int;
        let ghost all = states@;
        for state in it: states.into_iter()
            invariant
                it.seq() == all,
                base == old_states.len(),
                base + all.len() <= u32::MAX,
                self.wf(),
                self.spec_states() == old_states + states_view(all.take(it.index() as int)),
                self.spec_products() == products_after(old_products, states_view(all.take(it.index() as int)), base),
                self.spec_chains() == chains_after(old_chains, states_view(all.take(it.index() as int)), base),
        {
            let ghost i: int = it.index() as int;
            proof {
                assert(all.take(i + 1) =~= all.take(i).push(state));
                assert(states_view(all.take(i + 1)) =~= states_view(all.take(i)).push(state_view(state)));
                assert(states_view(all.take(i + 1)).drop_last() =~= states_view(all.take(i)));
            }
            let id: u32 = self.id_to_state.len() as u32;
            let ghost before = self.spec_states();
            match &state {
                RegisteredState::Product(product) => {
                    product_map_insert(&mut self.product_to_id, *product, id);
                },
                RegisteredState::Emit(emit) => {
                    if emit.position == 1 {
                        chain_map_insert(&mut self.chain_to_id, share_chain(&emit.chain), id);
                    }
                },
            }
            self.id_to_state.push(state);
            proof {
                assert(self.spec_states() =~= before.push(state_view(state)));
                assert(before.push(state_view(state)) =~= old_states + states_view(all.take(i + 1)));
            }
        }
        proof {
            assert(all.take(all.len() as int) =~= all);
        }
    }
}


/// What `checked_state_count` gives for `required` retained states under
/// `limit`: the last ID, the exceeded ceiling, or the sentinel overflow.
pub open spec fn state_count_result(required: int, limit: usize) -> Result<u32, GeneralizedWfstError> {
    if required > limit {
        Err(GeneralizedWfstError::LimitExceeded {
            resource: GeneralizedWfstResource::RetainedWfstStates,
            limit,
            required: required as usize,
        })
    } else if 1 <= required <= u32::MAX {
        Ok((required - 1) as u32)
    } else {
        Err(GeneralizedWfstError::ArithmeticOverflow("encoding a WFST state ID without using NO_STATE"))
    }
}

/// The ID the next staged state receives, `registered` states being
/// registered and `staged` staged, or why there is none.
pub open spec fn next_id_result(registered: int, staged: int, limit: usize) -> Result<u32, GeneralizedWfstError> {
    let index = registered + staged;
    if index > usize::MAX {
        Err(GeneralizedWfstError::ArithmeticOverflow("assigning a WFST state ID"))
    } else if index + 1 > usize::MAX {
        Err(GeneralizedWfstError::ArithmeticOverflow("counting retained WFST states"))
    } else {
        state_count_result(index + 1, limit)
    }
}

/// The continuation states of a chain of `width` label pairs whose first
/// continuation gets ID `first`: positions 1 to `width - 1`, each leading to
/// the next ID, the last to the chain's target.
pub open spec fn emit_run(key: ChainKey, first: int, width: int) -> Seq<StateView> {
    Seq::new((width - 1) as nat, |i: int| StateView::Emit(key, (i + 1) as usize,
        if i + 2 == width { key.2 } else { (first + i + 1) as u32 }))
}

/// A transaction-local extension of a registry: new states get the IDs that
/// follow the registry's, and nothing of the registry is copied.
pub struct StateBatch {
    states: Vec<RegisteredState>,
    products: ProductMap,
    chains: ChainMap,
}

impl StateBatch {
    /// The staged states, in ID order.
    pub closed spec fn spec_states(&self) -> Seq<StateView> {
        states_view(self.states@)
    }

    /// The staged products and their IDs.
    pub closed spec fn spec_products(&self) -> Map<(u32, usize, usize), u32> {
        product_ids(self.products)
    }

    /// The staged chains and the IDs of their first continuations.
    pub closed spec fn spec_chains(&self) -> Map<ChainKey, u32> {
        chain_ids(self.chains)
    }

    /// States, products and chains together.
    pub open spec fn spec_view(&self) -> (Seq<StateView>, Map<(u32, usize, usize), u32>, Map<ChainKey, u32>) {
        (self.spec_states(), self.spec_products(), self.spec_chains())
    }

    /// The batch extends `registry`: its IDs follow the registry's and stay
    /// below the sentinel, its indexes point at its states, and nothing is
    /// staged twice.
    pub open spec fn wf_for(&self, registry: &StateRegistry) -> bool {
        &&& registry.wf()
        &&& registry.spec_states().len() + self.spec_states().len() <= u32::MAX
        &&& maps_point_into(self.spec_products(), self.spec_chains(), self.spec_states(),
                registry.spec_states().len() as int)
        &&& staged_once(self.spec_products(), self.spec_chains(), self.spec_states(),
                registry.spec_states().len() as int)
    }

    /// An empty batch.
    pub fn new() -> (r: Self)
        ensures
            r.spec_states() == Seq::<StateView>::empty(),
            r.spec_products() == Map::<(u32, usize, usize), u32>::empty(),
            r.spec_chains() == Map::<ChainKey, u32>::empty(),
    {
        let r = StateBatch {
            states: Vec::new(),
            products: product_map_with_capacity(0),
            chains: chain_map_with_capacity(0),
        };
        proof {
            assert(r.spec_states() =~= Seq::<StateView>::empty());
            assert(r.spec_products() =~= Map::<(u32, usize, usize), u32>::empty());
            assert(r.spec_chains() =~= Map::<ChainKey, u32>::empty());
        }
        r
    }

    /// Number of staged states.
    pub fn len(&self) -> (r: usize)
        ensures
            r == self.spec_states().len(),
    {
        self.states.len()
    }

    /// The staged states, to be committed.
    pub fn into_states(self) -> (r: Vec<RegisteredState>)
        ensures
            states_view(r@) == self.spec_states(),
    {
        self.states
    }

    /// The ID the next staged state receives.
    fn next_id(&self, registry: &StateRegistry, limit: usize) -> (r: Result<u32, GeneralizedWfstError>)
        ensures
            r == next_id_result(registry.spec_states().len() as int, self.spec_states().len() as int, limit),
    {
        let index: usize = match registry.len().checked_add(self.states.len()) {
            Some(index) => index,
            None => return Err(GeneralizedWfstError::ArithmeticOverflow("assigning a WFST state ID")),
        };
        let required: usize = match index.checked_add(1) {
            Some(required) => required,
            None => return Err(GeneralizedWfstError::ArithmeticOverflow("counting retained WFST states")),
        };
        checked_state_count(required, limit)
    }

    /// The ID of the product `state`: the registry's, else the batch's, else a
    /// new one under which the product is staged.
    pub fn product(&mut self, registry: &StateRegistry, state: ProductState, limit: usize)
        -> (r: Result<u32, GeneralizedWfstError>)
        requires
            old(self).wf_for(registry),
        ensures
            final(self).wf_for(registry),
            ({
                let k = product_key(state);
                if registry.spec_products().contains_key(k) {
                    r == Ok::<u32, GeneralizedWfstError>(registry.spec_products()[k])
                        && final(self).spec_view() == old(self).spec_view()
                } else if old(self).spec_products().contains_key(k) {
                    r == Ok::<u32, GeneralizedWfstError>(old(self).spec_products()[k])
                        && final(self).spec_view() == old(self).spec_view()
                } else {
                    match next_id_result(registry.spec_states().len() as int, old(self).spec_states().len() as int, limit) {
                        Err(e) => r == Err::<u32, GeneralizedWfstError>(e) && final(self).spec_view() == old(self).spec_view(),
                        Ok(id) => {
                            &&& r == Ok::<u32, GeneralizedWfstError>(id)
                            &&& final(self).spec_states() == old(self).spec_states().push(StateView::Product(state))
                            &&& final(self).spec_products() == old(self).spec_products().insert(k, id)
                            &&& final(self).spec_chains() == old(self).spec_chains()
                        },
                    }
                }
            }),
    {
        match registry.product_id(state) {
            Some(id) => return Ok(id),
            None => {},
        }
        match product_map_get(&self.products, state) {
            Some(id) => return Ok(id),
            None => {},
        }
        let id: u32 = match self.next_id(registry, limit) {
            Ok(id) => id,
            Err(e) => return Err(e),
        };
        let ghost base: int = registry.spec_states().len() as int;
        let ghost before = self.spec_states();
        product_map_insert(&mut self.products, state, id);
        self.states.push(RegisteredState::Product(state));
        proof {
            assert(self.spec_states() =~= before.push(StateView::Product(state)));
            assert(id == base + before.len());
        }
        Ok(id)
    }

    /// The ID at which `chain` is entered: its target when it has at most one
    /// label pair, else the first continuation the registry or the batch
    /// holds for it, else a new one, staging all its continuations at once.
    pub fn chain(&mut self, registry: &StateRegistry, chain: EmissionChain, limit: usize)
        -> (r: Result<u32, GeneralizedWfstError>)
        requires
            old(self).wf_for(registry),
        ensures
            final(self).wf_for(registry),
            ({
                let k = chain.spec_key();
                let width = chain.spec_width() as int;
                let base = registry.spec_states().len() as int;
                let staged = old(self).spec_states().len() as int;
                if width <= 1 {
                    r == Ok::<u32, GeneralizedWfstError>(chain.target) && final(self).spec_view() == old(self).spec_view()
                } else if registry.spec_chains().contains_key(k) {
                    r == Ok::<u32, GeneralizedWfstError>(registry.spec_chains()[k])
                        && final(self).spec_view() == old(self).spec_view()
                } else if old(self).spec_chains().contains_key(k) {
                    r == Ok::<u32, GeneralizedWfstError>(old(self).spec_chains()[k])
                        && final(self).spec_view() == old(self).spec_view()
                } else {
                    match next_id_result(base, staged, limit) {
                        Err(e) => r == Err::<u32, GeneralizedWfstError>(e) && final(self).spec_view() == old(self).spec_view(),
                        Ok(first) => if base + staged + (width - 1) > usize::MAX {
                            r == Err::<u32, GeneralizedWfstError>(
                                GeneralizedWfstError::ArithmeticOverflow("counting a complete emission chain"))
                                && final(self).spec_view() == old(self).spec_view()
                        } else {
                            match state_count_result(base + staged + (width - 1), limit) {
                                Err(e) => r == Err::<u32, GeneralizedWfstError>(e)
                                    && final(self).spec_view() == old(self).spec_view(),
                                Ok(_) => {
                                    ||| r == Err::<u32, GeneralizedWfstError>(
                                            GeneralizedWfstError::AllocationFailed("staging an emission chain"))
                                        && final(self).spec_view() == old(self).spec_view()
                                    ||| {
                                        &&& r == Ok::<u32, GeneralizedWfstError>(first)
                                        &&& final(self).spec_states() == old(self).spec_states() + emit_run(k, first as int, width)
                                        &&& final(self).spec_products() == old(self).spec_products()
                                        &&& final(self).spec_chains() == old(self).spec_chains().insert(k, first)
                                    }
                                },
                            }
                        },
                    }
                }
            }),
    {
        let width: usize = if chain.input.len() >= chain.output.len() { chain.input.len() } else { chain.output.len() };
        if width <= 1 {
            return Ok(chain.target);
        }
        match registry.chain_id(&chain) {
            Some(id) => return Ok(id),
            None => {},
        }
        match chain_map_get(&self.chains, &chain) {
            Some(id) => return Ok(id),
            None => {},
        }
        let first: u32 = match self.next_id(registry, limit) {
            Ok(first) => first,
            Err(e) => return Err(e),
        };
        let count: usize = width - 1;
        let required: usize = match registry.len().checked_add(self.states.len()) {
            Some(base) => match base.checked_add(count) {
                Some(required) => required,
                None => return Err(GeneralizedWfstError::ArithmeticOverflow("counting a complete emission chain")),
            },
            None => return Err(GeneralizedWfstError::ArithmeticOverflow("counting a complete emission chain")),
        };
        match checked_state_count(required, limit) {
            Ok(_) => {},
            Err(e) => return Err(e),
        }
        match self.states.try_reserve(count) {
            Ok(()) => {},
            Err(_) => return Err(GeneralizedWfstError::AllocationFailed("staging an emission chain")),
        }
        let ghost key = chain.spec_key();
        let ghost base: int = registry.spec_states().len() as int;
        let ghost before = self.spec_states();
        let ghost run = emit_run(key, first as int, width as int);
        let ghost products0 = self.spec_products();
        let ghost chains0 = self.spec_chains();
        let target: u32 = chain.target;
        let chain = Arc::new(chain);
        chain_map_insert(&mut self.chains, share_chain(&chain), first);
        let mut position: usize = 1;
        while position < width
            invariant
                1 <= position <= width,
                2 <= width,
                first == base + before.len(),
                first + width - 1 <= u32::MAX,
                chain.spec_key() == key,
                key.2 == target,
                run == emit_run(key, first as int, width as int),
                self.spec_states() == before + run.take(position - 1),
                self.spec_products() == products0,
                self.spec_chains() == chains0.insert(key, first),
                !chains0.contains_key(key),
                maps_point_into(products0, chains0, before, base),
                staged_once(products0, chains0, before, base),
            decreases width - position,
        {
            let next: u32 = if position + 1 == width { target } else { first + position as u32 };
            let ghost prev = self.spec_states();
            self.states.push(RegisteredState::Emit(EmitState { chain: share_chain(&chain), position, next }));
            proof {
                assert(run[position - 1] == StateView::Emit(key, position, next));
                assert(self.spec_states() =~= prev.push(StateView::Emit(key, position, next)));
                assert(run.take(position as int) =~= run.take(position - 1).push(run[position - 1]));
            }
            position = position + 1;
        }
        proof {
            assert(run.take(width - 1) =~= run);
            let after = self.spec_states();
            assert forall|j: int| 0 <= j < after.len() implies match #[trigger] after[j] {
                StateView::Product(p) => self.spec_products().contains_key(product_key(p))
                    && self.spec_products()[product_key(p)] == base + j,
                StateView::Emit(key2, position2, _) => position2 == 1 ==> self.spec_chains().contains_key(key2)
                    && self.spec_chains()[key2] == base + j,
            } by {
                if j >= before.len() {
                    assert(after[j] == run[j - before.len()]);
                } else {
                    assert(after[j] == before[j]);
                }
            }
            assert(after[first - base] == run[0]);
        }
        Ok(first)
    }

    /// Reserve room in `registry` for everything staged; the registry's
    /// contents are unchanged whatever the outcome.
    pub fn prepare_registry(&self, registry: &mut StateRegistry) -> (r: Result<(), GeneralizedWfstError>)
        requires
            old(registry).wf(),
        ensures
            final(registry).wf(),
            final(registry).spec_states() == old(registry).spec_states(),
            final(registry).spec_products() == old(registry).spec_products(),
            final(registry).spec_chains() == old(registry).spec_chains(),
            r is Err ==> r == Err::<(), GeneralizedWfstError>(
                GeneralizedWfstError::AllocationFailed("reserving WFST identities")),
    {
        let products: usize = product_map_len(&self.products);
        let chains: usize = chain_map_len(&self.chains);
        match registry.try_reserve_additional(products, chains, self.states.len()) {
            Ok(()) => Ok(()),
            Err(_) => Err(GeneralizedWfstError::AllocationFailed("reserving WFST identities")),
        }
    }
}

} // verus!
