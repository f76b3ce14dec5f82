//! Orders, price-level queues and order identifiers.
//!
//! An order carries its remaining quantity, its price and the lifecycle
//! fields used by the settlement path. A price-level queue keeps the orders
//! resting at one price in arrival order (FIFO) together with a cached total
//! quantity.

use vstd::prelude::*;
use vstd::string::StrSliceExecFns;
use vstd::string::StringSliceAdditionalSpecFns;
use vstd::utf8::encode_utf8;

verus! {

/// An opaque 32-byte principal or account key, held as four 64-bit words in
/// little-endian order: `w0` holds the first eight bytes of the key.
#[derive(Clone, Copy, Debug, PartialEq, Eq, Structural)]
pub struct AccountId {
    pub w0: u64,
    pub w1: u64,
    pub w2: u64,
    pub w3: u64,
}

impl AccountId {
    /// Builds a key from its four little-endian 64-bit words.
    pub fn new(w0: u64, w1: u64, w2: u64, w3: u64) -> (r: AccountId)
        ensures
            r == (AccountId { w0, w1, w2, w3 }),
    {
        AccountId { w0, w1, w2, w3 }
    }
}

/// How an incoming order interacts with the book.
#[derive(Clone, Copy, Debug, PartialEq, Eq, Structural)]
pub enum OrderType {
    /// Rests in the book until filled or cancelled.
    Limit,
    /// Fills immediately at the best available prices; nothing rests.
    Market,
    /// Maker-only: rejected if it would match immediately.
    PostOnly,
    /// Fills what it can immediately; the remainder is discarded.
    ImmediateOrCancel,
    /// Fills completely or is rejected entirely.
    FillOrKill,
}

/// Side of the order book.
#[derive(Clone, Copy, Debug, PartialEq, Eq, Structural)]
pub enum Side {
    /// A buy order.
    Bid,
    /// A sell order.
    Ask,
}

impl Side {
    /// The side a taker on `self` crosses against.
    pub fn opposite(&self) -> (r: Side)
        ensures
            r == self.spec_opposite(),
    {
        match self {
            Side::Bid => Side::Ask,
            Side::Ask => Side::Bid,
        }
    }

    /// The other side of the book.
    pub open spec fn spec_opposite(self) -> Side {
        match self {
            Side::Bid => Side::Ask,
            Side::Ask => Side::Bid,
        }
    }
}

/// Settlement progress of a matched order.
#[derive(Clone, Copy, Debug, PartialEq, Eq, Structural)]
pub enum PaymentStatus {
    /// Matched, fiat payment not yet claimed.
    Pending,
    /// The buyer marked the fiat payment as made.
    PaymentMarked,
    /// Inside the cool-down window before verification.
    SettlementDelay,
    /// The payment attestation was accepted; escrow may be released.
    Verified,
    /// The payment is contested.
    Disputed,
}

/// Mathematical value of an [`Order`]: the same fields with the payment
/// method held as a byte sequence.
pub ghost struct OrderV {
    pub order_id: u128,
    pub owner: AccountId,
    pub quantity: u64,
    pub original_quantity: u64,
    pub price: u64,
    pub timestamp: i64,
    pub order_type: OrderType,
    pub side: Side,
    pub client_order_id: u64,
    pub payment_method: Seq<u8>,
    pub payment_status: PaymentStatus,
    pub payment_marked_timestamp: i64,
    pub settlement_timestamp: i64,
}

/// A single order in the book.
#[derive(Clone, Debug)]
pub struct Order {
    /// Unique 128-bit identifier, built by [`generate_order_id`].
    pub order_id: u128,
    /// The principal that placed the order.
    pub owner: AccountId,
    /// Base-token quantity remaining to be filled.
    pub quantity: u64,
    /// Quantity the order was placed with.
    pub original_quantity: u64,
    /// Price in quote units per base unit; compared as a raw integer.
    pub price: u64,
    /// Unix timestamp of creation.
    pub timestamp: i64,
    /// How the order interacts with the book.
    pub order_type: OrderType,
    /// Bid or Ask.
    pub side: Side,
    /// Caller-assigned identifier.
    pub client_order_id: u64,
    /// Off-chain payment method, truncated to at most 32 bytes.
    pub payment_method: Vec<u8>,
    /// Settlement progress once the order has been matched.
    pub payment_status: PaymentStatus,
    /// When the buyer marked the payment as made (0 until then).
    pub payment_marked_timestamp: i64,
    /// When the cool-down window expires (0 until the payment is marked).
    pub settlement_timestamp: i64,
}

impl View for Order {
    type V = OrderV;

    open spec fn view(&self) -> OrderV {
        OrderV {
            order_id: self.order_id,
            owner: self.owner,
            quantity: self.quantity,
            original_quantity: self.original_quantity,
            price: self.price,
            timestamp: self.timestamp,
            order_type: self.order_type,
            side: self.side,
            client_order_id: self.client_order_id,
            payment_method: self.payment_method@,
            payment_status: self.payment_status,
            payment_marked_timestamp: self.payment_marked_timestamp,
            settlement_timestamp: self.settlement_timestamp,
        }
    }
}

impl DeepView for Order {
    type V = OrderV;

    open spec fn deep_view(&self) -> OrderV {
        self.view()
    }
}

/// The payment-method bytes stored for a string input: its UTF-8 encoding
/// truncated to 32 bytes.
pub open spec fn stored_payment_method(chars: Seq<char>) -> Seq<u8> {
    let bytes = encode_utf8(chars);
    if bytes.len() <= 32 {
        bytes
    } else {
        bytes.take(32)
    }
}

impl Order {
    /// Creates a fresh, unmatched order. The payment method is stored as its
    /// UTF-8 bytes truncated to 32 bytes; the remaining quantity starts equal
    /// to the original quantity and the settlement fields start cleared.
    pub fn new(
        order_id: u128,
        owner: AccountId,
        quantity: u64,
        price: u64,
        timestamp: i64,
        order_type: OrderType,
        side: Side,
        client_order_id: u64,
        payment_method: String,
    ) -> (r: Order)
        ensures
            r@ == (OrderV {
                order_id,
                owner,
                quantity,
                original_quantity: quantity,
                price,
                timestamp,
                order_type,
                side,
                client_order_id,
                payment_method: stored_payment_method(payment_method@),
                payment_status: PaymentStatus::Pending,
                payment_marked_timestamp: 0,
                settlement_timestamp: 0,
            }),
    {
        let bytes: &[u8] = payment_method.as_str().as_bytes();
        let n: usize = if bytes.len() < 32 {
            bytes.len()
        } else {
            32
        };
        let mut pm: Vec<u8> = Vec::new();
        let mut i: usize = 0;
        while i < n
            invariant
                i <= n,
                n <= bytes@.len(),
                pm@ == bytes@.take(i as int),
            decreases n - i,
        {
            pm.push(bytes[i]);
            assert(pm@ == bytes@.take(i + 1 as int));
            i = i + 1;
        }
        proof {
            assert(pm@ =~= stored_payment_method(payment_method@));
        }
        Order {
            order_id,
            owner,
            quantity,
            original_quantity: quantity,
            price,
            timestamp,
            order_type,
            side,
            client_order_id,
            payment_method: pm,
            payment_status: PaymentStatus::Pending,
            payment_marked_timestamp: 0,
            settlement_timestamp: 0,
        }
    }

    /// True once nothing remains to fill.
    pub fn is_filled(&self) -> (r: bool)
        ensures
            r == (self.quantity == 0),
    {
        self.quantity == 0
    }

    /// Portion of the original quantity already filled, in whole percent
    /// (0 when the order was placed with quantity zero).
    pub fn fill_percentage(&self) -> (r: u64)
        requires
            self.quantity <= self.original_quantity,
        ensures
            self.original_quantity == 0 ==> r == 0,
            self.original_quantity > 0 ==> r == ((self.original_quantity - self.quantity) * 100)
                / (self.original_quantity as int),
            r <= 100,
    {
        if self.original_quantity == 0 {
            return 0;
        }
        let filled: u128 = (self.original_quantity - self.quantity) as u128;
        let r: u128 = (filled * 100) / (self.original_quantity as u128);
        assert(r <= 100) by (nonlinear_arith)
            requires
                r as int == (filled as int * 100) / (self.original_quantity as int),
                filled <= self.original_quantity,
                self.original_quantity > 0,
        ;
        r as u64
    }

    /// A copy of this order with the same mathematical value.
    pub fn duplicate(&self) -> (r: Order)
        ensures
            r@ == self@,
    {
        let mut pm: Vec<u8> = Vec::new();
        let mut i: usize = 0;
        let n: usize = self.payment_method.len();
        while i < n
            invariant
                n == self.payment_method@.len(),
                i <= n,
                pm@ == self.payment_method@.take(i as int),
            decreases n - i,
        {
            pm.push(self.payment_method[i]);
            assert(pm@ == self.payment_method@.take(i + 1 as int));
            i = i + 1;
        }
        proof {
            assert(pm@ =~= self.payment_method@);
        }
        Order {
            order_id: self.order_id,
            owner: self.owner,
            quantity: self.quantity,
            original_quantity: self.original_quantity,
            price: self.price,
            timestamp: self.timestamp,
            order_type: self.order_type,
            side: self.side,
            client_order_id: self.client_order_id,
            payment_method: pm,
            payment_status: self.payment_status,
            payment_marked_timestamp: self.payment_marked_timestamp,
            settlement_timestamp: self.settlement_timestamp,
        }
    }

    /// Consumes `fill_quantity` units, saturating at zero.
    pub fn fill(&mut self, fill_quantity: u64)
        ensures
            final(self).quantity == if fill_quantity <= old(self).quantity {
                old(self).quantity - fill_quantity
            } else {
                0
            },
            final(self)@ == (OrderV { quantity: final(self).quantity, ..old(self)@ }),
    {
        self.quantity = self.quantity.saturating_sub(fill_quantity);
    }
}

/// Builds a unique 128-bit order identifier.
///
/// Upper 32 bits: the low 32 bits of the creation timestamp. Next 32 bits:
/// the per-market sequence number. Lower 64 bits: the first eight bytes of
/// the owner key. The pair (sequence, owner) makes the identifier unique.
pub fn generate_order_id(owner: &AccountId, sequence: u64, timestamp: i64) -> (r: u128)
    ensures
        r == spec_order_id(*owner, sequence, timestamp),
{
    let high: u64 = (((timestamp as u64) & 0xFFFF_FFFF) << 32) | (sequence & 0xFFFF_FFFF);
    let low: u64 = owner.w0;
    ((high as u128) << 64) | (low as u128)
}

/// The identifier [`generate_order_id`] returns.
pub open spec fn spec_order_id(owner: AccountId, sequence: u64, timestamp: i64) -> u128 {
    let high = (((timestamp as u64) & 0xFFFF_FFFF) << 32) | (sequence & 0xFFFF_FFFF);
    (((high as u128) << 64) | (owner.w0 as u128)) as u128
}

/// Sum of the remaining quantities of a sequence of orders.
pub open spec fn sum_quantities(s: Seq<OrderV>) -> int
    decreases s.len(),
{
    if s.len() == 0 {
        0
    } else {
        sum_quantities(s.drop_last()) + s.last().quantity
    }
}

/// Index of the first order with the given identifier, or -1 if none.
pub open spec fn first_index_of(s: Seq<OrderV>, order_id: u128) -> int
    decreases s.len(),
{
    if s.len() == 0 {
        -1
    } else if s[0].order_id == order_id {
        0
    } else {
        let r = first_index_of(s.drop_first(), order_id);
        if r < 0 {
            -1
        } else {
            r + 1
        }
    }
}

/// What `first_index_of` finds: either no order carries the identifier, or
/// the result is the first position that does.
pub proof fn lemma_first_index_of(s: Seq<OrderV>, order_id: u128)
    ensures
        first_index_of(s, order_id) < 0 ==> forall|j: int|
            0 <= j < s.len() ==> s[j].order_id != order_id,
        first_index_of(s, order_id) >= 0 ==> {
            let i = first_index_of(s, order_id);
            &&& i < s.len()
            &&& s[i].order_id == order_id
            &&& forall|j: int| 0 <= j < i ==> s[j].order_id != order_id
        },
    decreases s.len(),
{
    if s.len() > 0 && s[0].order_id != order_id {
        lemma_first_index_of(s.drop_first(), order_id);
        assert(forall|j: int| 1 <= j < s.len() ==> s[j] == s.drop_first()[j - 1]);
    }
}

/// Removing one order lowers the quantity sum by exactly that order's
/// remaining quantity.
pub proof fn lemma_sum_quantities_remove(s: Seq<OrderV>, i: int)
    requires
        0 <= i < s.len(),
    ensures
        sum_quantities(s.remove(i)) == sum_quantities(s) - s[i].quantity,
    decreases s.len(),
{
    if i == s.len() - 1 {
        assert(s.remove(i) =~= s.drop_last());
    } else {
        lemma_sum_quantities_remove(s.drop_last(), i);
        assert(s.remove(i).drop_last() =~= s.drop_last().remove(i));
        assert(s.remove(i).last() == s.last());
    }
}

/// Replacing one order changes the quantity sum by the difference of the
/// remaining quantities.
pub proof fn lemma_sum_quantities_update(s: Seq<OrderV>, i: int, o: OrderV)
    requires
        0 <= i < s.len(),
    ensures
        sum_quantities(s.update(i, o)) == sum_quantities(s) - s[i].quantity + o.quantity,
    decreases s.len(),
{
    if i == s.len() - 1 {
        assert(s.update(i, o).drop_last() =~= s.drop_last());
        assert(s.update(i, o).last() == o);
    } else {
        lemma_sum_quantities_update(s.drop_last(), i, o);
        assert(s.update(i, o).drop_last() =~= s.drop_last().update(i, o));
        assert(s.update(i, o).last() == s.last());
    }
}

/// A queue of the orders resting at one price, oldest first, with a cached
/// total of their remaining quantities.
#[derive(Clone, Debug)]
pub struct OrderQueue {
    /// The resting orders in arrival order.
    pub orders: Vec<Order>,
    /// Cached sum of the remaining quantities in `orders`.
    pub total_quantity: u64,
}

impl View for OrderQueue {
    type V = Seq<OrderV>;

    open spec fn view(&self) -> Seq<OrderV> {
        self.orders.deep_view()
    }
}

impl OrderQueue {
    /// The cached total matches the orders it summarizes.
    pub open spec fn wf(self) -> bool {
        self.total_quantity == sum_quantities(self@)
    }

    /// An empty queue.
    pub fn new() -> (r: OrderQueue)
        ensures
            r@ =~= Seq::<OrderV>::empty(),
            r.total_quantity == 0,
            r.wf(),
    {
        OrderQueue { orders: Vec::new(), total_quantity: 0 }
    }

    /// Appends an order (newest position) and adds its quantity to the total.
    pub fn push(&mut self, order: Order)
        requires
            old(self).wf(),
            old(self).total_quantity + order.quantity <= u64::MAX,
        ensures
            final(self).wf(),
            final(self)@ =~= old(self)@.push(order@),
            final(self).total_quantity == old(self).total_quantity + order.quantity,
    {
        self.total_quantity = self.total_quantity + order.quantity;
        self.orders.push(order);
        proof {
            assert(self@ =~= old(self)@.push(order@));
            assert(self@.drop_last() =~= old(self)@);
            assert(self@.last() == order@);
        }
    }

    /// Removes the first order with the given identifier, if any, and
    /// subtracts its quantity from the total.
    pub fn remove(&mut self, order_id: u128) -> (r: Option<Order>)
        requires
            old(self).wf(),
        ensures
            final(self).wf(),
            ({
                let i = first_index_of(old(self)@, order_id);
                if i >= 0 {
                    &&& r is Some
                    &&& r.unwrap()@ == old(self)@[i]
                    &&& final(self)@ =~= old(self)@.remove(i)
                    &&& final(self).total_quantity == old(self).total_quantity
                        - old(self)@[i].quantity
                } else {
                    &&& r is None
                    &&& final(self)@ =~= old(self)@
                    &&& *final(self) == *old(self)
                }
            }),
    {
        let ghost gi = first_index_of(self@, order_id);
        let mut pos: usize = 0;
        let n: usize = self.orders.len();
        while pos < n
            invariant
                *self == *old(self),
                old(self).wf(),
                n == self.orders@.len(),
                self@.len() == n,
                pos <= n,
                gi == first_index_of(self@, order_id),
                forall|j: int| 0 <= j < pos ==> self@[j].order_id != order_id,
            decreases n - pos,
        {
            let hit: bool = self.orders[pos].order_id == order_id;
            proof {
                assert(self@[pos as int] == self.orders@[pos as int].deep_view());
            }
            if hit {
                proof {
                    lemma_first_index_of(self@, order_id);
                    assert(self@[pos as int].order_id == order_id);
                    if gi < pos {
                        assert(self@[gi].order_id != order_id);
                        assert(false);
                    }
                    if gi > pos {
                        assert(self@[pos as int].order_id != order_id);
                        assert(false);
                    }
                    lemma_sum_quantities_remove(self@, pos as int);
                    lemma_sum_quantities_nonnegative(self@.remove(pos as int));
                }
                let order = self.orders.remove(pos);
                self.total_quantity = self.total_quantity - order.quantity;
                proof {
                    assert(self@ =~= old(self)@.remove(pos as int));
                }
                return Some(order);
            }
            pos = pos + 1;
        }
        proof {
            lemma_first_index_of(self@, order_id);
            if gi >= 0 {
                assert(self@[gi].order_id != order_id);
                assert(false);
            }
        }
        None
    }

    /// Position of the first order with the given identifier, if any.
    pub fn position_of(&self, order_id: u128) -> (r: Option<usize>)
        ensures
            r is Some <==> first_index_of(self@, order_id) >= 0,
            r is Some ==> r.unwrap() as int == first_index_of(self@, order_id),
    {
        proof {
            lemma_first_index_of(self@, order_id);
        }
        let ghost gi = first_index_of(self@, order_id);
        let mut pos: usize = 0;
        let n: usize = self.orders.len();
        while pos < n
            invariant
                n == self.orders@.len(),
                self@.len() == n,
                pos <= n,
                gi == first_index_of(self@, order_id),
                forall|j: int| 0 <= j < pos ==> self@[j].order_id != order_id,
            decreases n - pos,
        {
            let hit: bool = self.orders[pos].order_id == order_id;
            proof {
                assert(self@[pos as int] == self.orders@[pos as int].deep_view());
            }
            if hit {
                proof {
                    lemma_first_index_of(self@, order_id);
                    if gi < pos {
                        assert(self@[gi].order_id != order_id);
                        assert(false);
                    }
                    if gi > pos {
                        assert(self@[pos as int].order_id != order_id);
                        assert(false);
                    }
                }
                return Some(pos);
            }
            pos = pos + 1;
        }
        proof {
            lemma_first_index_of(self@, order_id);
            if gi >= 0 {
                assert(self@[gi].order_id != order_id);
                assert(false);
            }
        }
        None
    }

    /// A value-equal copy of this queue (the orders and the cached total).
    pub fn duplicate(&self) -> (r: OrderQueue)
        ensures
            r@ =~= self@,
            r.total_quantity == self.total_quantity,
    {
        let mut orders: Vec<Order> = Vec::new();
        let mut i: usize = 0;
        let n: usize = self.orders.len();
        while i < n
            invariant
                n == self.orders@.len(),
                i <= n,
                orders@.len() == i,
                forall|j: int| 0 <= j < i ==> (#[trigger] orders@[j])@ == self.orders@[j]@,
            decreases n - i,
        {
            let o = self.orders[i].duplicate();
            orders.push(o);
            i = i + 1;
        }
        let r = OrderQueue { orders, total_quantity: self.total_quantity };
        proof {
            assert forall|j: int| 0 <= j < r@.len() implies r@[j] == self@[j] by {
                assert(r@[j] == r.orders@[j]@);
                assert(self@[j] == self.orders@[j]@);
            }
        }
        r
    }

    /// The oldest order, if any.
    pub fn peek(&self) -> (r: Option<&Order>)
        ensures
            self@.len() > 0 ==> r is Some && r.unwrap()@ == self@[0],
            self@.len() == 0 ==> r is None,
    {
        if self.orders.len() > 0 {
            Some(&self.orders[0])
        } else {
            None
        }
    }

    /// Mutable access to the oldest order. The cached total is left as it
    /// is: a caller that changes the order's quantity through the
    /// reference must adjust the total itself (see `update_quantity`);
    /// `fill_head` does both in one step.
    pub fn peek_mut(&mut self) -> (r: Option<&mut Order>)
        ensures
            old(self)@.len() == 0 ==> r is None && *final(self) == *old(self),
            old(self)@.len() > 0 ==> r is Some && {
                &&& r.unwrap()@ == old(self)@[0]
                &&& final(self)@ =~= old(self)@.update(0, final(r.unwrap())@)
                &&& final(self).total_quantity == old(self).total_quantity
            },
    {
        if self.orders.len() > 0 {
            Some(&mut self.orders[0])
        } else {
            None
        }
    }

    /// Reduces the oldest order's remaining quantity by `fill_quantity` and
    /// keeps the cached total in step.
    pub fn fill_head(&mut self, fill_quantity: u64)
        requires
            old(self).wf(),
            old(self)@.len() > 0,
            fill_quantity <= old(self)@[0].quantity,
        ensures
            final(self).wf(),
            final(self)@ =~= old(self)@.update(
                0,
                OrderV { quantity: (old(self)@[0].quantity - fill_quantity) as u64, ..old(self)@[0] },
            ),
            final(self).total_quantity == old(self).total_quantity - fill_quantity,
    {
        let ghost s0 = self@;
        let ghost filled_head = OrderV {
            quantity: (s0[0].quantity - fill_quantity) as u64,
            ..s0[0]
        };
        proof {
            lemma_sum_quantities_update(s0, 0, filled_head);
            lemma_sum_quantities_remove(s0, 0);
            lemma_sum_quantities_nonnegative(s0.remove(0));
            assert(sum_quantities(s0) >= s0[0].quantity);
        }
        let head: &mut Order = &mut self.orders[0];
        head.fill(fill_quantity);
        self.total_quantity = self.total_quantity - fill_quantity;
        proof {
            assert(self@ =~= s0.update(0, filled_head));
        }
    }

    /// Removes and returns the oldest order when it is fully filled.
    pub fn pop_if_filled(&mut self) -> (r: Option<Order>)
        requires
            old(self).wf(),
        ensures
            final(self).wf(),
            if old(self)@.len() > 0 && old(self)@[0].quantity == 0 {
                &&& r is Some
                &&& r.unwrap()@ == old(self)@[0]
                &&& final(self)@ =~= old(self)@.drop_first()
                &&& final(self).total_quantity == old(self).total_quantity
            } else {
                &&& r is None
                &&& *final(self) == *old(self)
            },
    {
        if self.orders.len() > 0 {
            let filled: bool = self.orders[0].quantity == 0;
            if filled {
                proof {
                    lemma_sum_quantities_remove(self@, 0);
                }
                let order = self.orders.remove(0);
                self.total_quantity = self.total_quantity - order.quantity;
                proof {
                    assert(self@ =~= old(self)@.drop_first());
                }
                return Some(order);
            }
        }
        None
    }

    /// True when no orders rest at this price.
    pub fn is_empty(&self) -> (r: bool)
        ensures
            r == (self@.len() == 0),
    {
        self.orders.len() == 0
    }

    /// Adjusts the cached total by `delta`, saturating at zero on the way
    /// down. This touches only the cache, not the orders; the caller is
    /// responsible for keeping the two in step.
    pub fn update_quantity(&mut self, delta: i64)
        requires
            delta >= 0 ==> old(self).total_quantity + delta <= u64::MAX,
        ensures
            final(self).orders == old(self).orders,
            delta >= 0 ==> final(self).total_quantity == old(self).total_quantity + delta,
            delta < 0 ==> final(self).total_quantity == if old(self).total_quantity
                >= (-(delta as int)) {
                (old(self).total_quantity + delta) as u64
            } else {
                0
            },
    {
        if delta < 0 {
            let down: u64 = ((-(delta as i128)) as u64);
            self.total_quantity = self.total_quantity.saturating_sub(down);
        } else {
            self.total_quantity = self.total_quantity + (delta as u64);
        }
    }
}

/// Quantity sums are never negative.
pub proof fn lemma_sum_quantities_nonnegative(s: Seq<OrderV>)
    ensures
        sum_quantities(s) >= 0,
    decreases s.len(),
{
    if s.len() > 0 {
        lemma_sum_quantities_nonnegative(s.drop_last());
    }
}

} // verus!
