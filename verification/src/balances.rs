//! Balances by owner and stock-keeping unit, and what operations do to them.

use std::collections::hash_map::DefaultHasher;
use std::hash::{Hash, Hasher};

use vstd::prelude::*;
use vstd::std_specs::hash::DefaultHasherAdditionalSpecFns;

use crate::model::{operation_views, Operation, OperationView};
use crate::sharded::{ShardKey, Sharded};
use crate::table::{Table, TableKey};

verus! {

// ---------------------------------------------------------------- keys
/// What a balance belongs to: an owner and a stock-keeping unit.
pub struct BalanceKey {
    pub owner_id: String,
    pub sku: String,
}

impl View for BalanceKey {
    type V = (Seq<char>, Seq<char>);

    open spec fn view(&self) -> (Seq<char>, Seq<char>) {
        (self.owner_id@, self.sku@)
    }
}

/// What the hash of a text writes to a hasher.
pub uninterp spec fn str_hash_writes(text: Seq<char>) -> Seq<Seq<u8>>;

/// `<str as std::hash::Hash>::hash` into a `DefaultHasher`: it writes to the
/// hasher something that depends on the text alone.
#[verifier::external_body]
pub(crate) fn hash_str(text: &str, hasher: &mut DefaultHasher)
    ensures
        final(hasher)@ == old(hasher)@ + str_hash_writes(text@),
{
    text.hash(hasher)
}

/// The hash code of an owner and a stock-keeping unit.
pub open spec fn pair_code(owner_id: Seq<char>, sku: Seq<char>) -> u64 {
    DefaultHasher::spec_finish(str_hash_writes(owner_id) + str_hash_writes(sku))
}

fn pair_hash(owner_id: &str, sku: &str) -> (code: u64)
    ensures
        code == pair_code(owner_id@, sku@),
{
    let mut hasher: DefaultHasher = DefaultHasher::new();
    hash_str(owner_id, &mut hasher);
    hash_str(sku, &mut hasher);
    assert(hasher@ =~= str_hash_writes(owner_id@) + str_hash_writes(sku@));
    hasher.finish()
}

/// The state shard, out of `count`, that a balance belongs to.
pub open spec fn balance_shard(owner_id: Seq<char>, sku: Seq<char>, count: usize) -> int {
    (#[verifier::truncate] (pair_code(owner_id, sku) as usize) & (count - 1) as usize) as int
}

/// The state shard, out of `count`, that a balance belongs to.
pub fn shard_for(owner_id: &str, sku: &str, count: usize) -> (shard: usize)
    requires
        count > 0,
    ensures
        shard == balance_shard(owner_id@, sku@, count),
        shard < count,
{
    let code: usize = #[verifier::truncate] (pair_hash(owner_id, sku) as usize);
    let mask: usize = count - 1;
    assert(code & mask <= mask) by (bit_vector);
    code & mask
}

impl TableKey for BalanceKey {
    open spec fn code_of(key: (Seq<char>, Seq<char>)) -> u64 {
        pair_code(key.0, key.1)
    }

    fn code(&self) -> (code: u64) {
        pair_hash(self.owner_id.as_str(), self.sku.as_str())
    }

    fn same(&self, other: &Self) -> (result: bool) {
        self.owner_id == other.owner_id && self.sku == other.sku
    }
}

impl ShardKey for BalanceKey {
    open spec fn shard_of(key: (Seq<char>, Seq<char>), count: usize) -> int {
        balance_shard(key.0, key.1, count)
    }

    proof fn lemma_shard_of(key: (Seq<char>, Seq<char>), count: usize) {
        let code: usize = #[verifier::truncate] (pair_code(key.0, key.1) as usize);
        let mask: usize = (count - 1) as usize;
        assert(code & mask <= mask) by (bit_vector);
    }

    fn shard(&self, count: usize) -> (shard: usize) {
        shard_for(self.owner_id.as_str(), self.sku.as_str(), count)
    }
}

/// The balances of a store, in shards.
pub type Balances = Sharded<BalanceKey, i64>;

// ---------------------------------------------------------------- what operations do
/// The balance that an operation changes.
pub open spec fn op_key(op: OperationView) -> (Seq<char>, Seq<char>) {
    (op.owner_id, op.sku)
}

/// A balance; nothing recorded means zero.
pub open spec fn balance_of(
    balances: Map<(Seq<char>, Seq<char>), i64>,
    key: (Seq<char>, Seq<char>),
) -> i64 {
    if balances.contains_key(key) {
        balances[key]
    } else {
        0
    }
}

/// Whether the balance after an operation can be held.
pub open spec fn addable(balances: Map<(Seq<char>, Seq<char>), i64>, op: OperationView) -> bool {
    i64::MIN <= balance_of(balances, op_key(op)) + op.delta <= i64::MAX
}

/// The balances after an operation.
pub open spec fn add_op(
    balances: Map<(Seq<char>, Seq<char>), i64>,
    op: OperationView,
) -> Map<(Seq<char>, Seq<char>), i64> {
    balances.insert(op_key(op), (balance_of(balances, op_key(op)) + op.delta) as i64)
}

/// The balances after operations, one after another.
pub open spec fn add_ops(
    balances: Map<(Seq<char>, Seq<char>), i64>,
    ops: Seq<OperationView>,
) -> Map<(Seq<char>, Seq<char>), i64>
    decreases ops.len(),
{
    if ops.len() == 0 {
        balances
    } else {
        add_op(add_ops(balances, ops.drop_last()), ops.last())
    }
}

/// Whether every balance on the way through operations can be held.
pub open spec fn ops_addable(
    balances: Map<(Seq<char>, Seq<char>), i64>,
    ops: Seq<OperationView>,
) -> bool
    decreases ops.len(),
{
    ops.len() == 0 || (ops_addable(balances, ops.drop_last()) && addable(
        add_ops(balances, ops.drop_last()),
        ops.last(),
    ))
}

/// The balances after one more operation.
pub proof fn lemma_add_ops_step(
    balances: Map<(Seq<char>, Seq<char>), i64>,
    ops: Seq<OperationView>,
    i: int,
)
    requires
        0 <= i < ops.len(),
    ensures
        add_ops(balances, ops.take(i + 1)) == add_op(add_ops(balances, ops.take(i)), ops[i]),
        ops_addable(balances, ops.take(i + 1)) == (ops_addable(balances, ops.take(i)) && addable(
            add_ops(balances, ops.take(i)),
            ops[i],
        )),
{
    assert(ops.take(i + 1).drop_last() =~= ops.take(i));
}

/// Operations that can be applied can be applied one after another.
pub proof fn lemma_addable_prefix(
    balances: Map<(Seq<char>, Seq<char>), i64>,
    ops: Seq<OperationView>,
    n: int,
)
    requires
        ops_addable(balances, ops),
        0 <= n <= ops.len(),
    ensures
        ops_addable(balances, ops.take(n)),
        n < ops.len() ==> addable(add_ops(balances, ops.take(n)), ops[n]),
    decreases ops.len(),
{
    if n == ops.len() {
        assert(ops.take(n) =~= ops);
    } else if n == ops.len() - 1 {
        assert(ops.take(n) =~= ops.drop_last());
    } else {
        lemma_addable_prefix(balances, ops.drop_last(), n);
        assert(ops.drop_last().take(n) =~= ops.take(n));
        assert(ops.drop_last()[n] == ops[n]);
    }
}

/// The key of the balance that an operation changes.
pub fn key_of(operation: &Operation) -> (key: BalanceKey)
    ensures
        key@ == op_key(operation@),
{
    BalanceKey { owner_id: operation.owner_id.clone(), sku: operation.sku.clone() }
}

/// A balance; nothing recorded means zero.
pub fn balance_in(balances: &Balances, key: &BalanceKey) -> (balance: i64)
    requires
        balances.wf(),
    ensures
        balance == balance_of(balances@, key@),
{
    match balances.get(key) {
        Some(balance) => balance,
        None => 0,
    }
}

/// Applies an operation, and hands back the balance after it.
pub fn apply_one(balances: &mut Balances, operation: &Operation) -> (balance: i64)
    requires
        old(balances).wf(),
        addable(old(balances)@, operation@),
    ensures
        final(balances).wf(),
        final(balances).shards() == old(balances).shards(),
        final(balances)@ == add_op(old(balances)@, operation@),
        balance == final(balances)@[op_key(operation@)],
{
    let key: BalanceKey = key_of(operation);
    let balance: i64 = balance_in(balances, &key) + operation.delta;
    balances.insert(key, balance);
    balance
}

/// Whether operations can be applied without a balance that cannot be held.
pub fn can_apply(balances: &Balances, operations: &[Operation]) -> (result: bool)
    requires
        balances.wf(),
    ensures
        result == ops_addable(balances@, operation_views(operations@)),
{
    let ghost ops = operation_views(operations@);
    // The balances that differ from `balances` after the operations so far.
    let mut changed: Table<BalanceKey, i64> = Table::new();
    let mut at: usize = 0;
    assert(ops.take(0) =~= Seq::empty());
    while at < operations.len()
        invariant
            at <= operations@.len(),
            ops == operation_views(operations@),
            balances.wf(),
            changed.wf(),
            ops_addable(balances@, ops.take(at as int)),
            forall|key: (Seq<char>, Seq<char>)| #[trigger]
                balance_of(add_ops(balances@, ops.take(at as int)), key) == if changed@.contains_key(
                    key,
                ) {
                    changed@[key]
                } else {
                    balance_of(balances@, key)
                },
        decreases operations@.len() - at,
    {
        let operation: &Operation = &operations[at];
        let key: BalanceKey = key_of(operation);
        let balance: i64 = match changed.get(&key) {
            Some(balance) => balance,
            None => balance_in(balances, &key),
        };
        proof {
            assert(ops[at as int] == operation@);
            lemma_add_ops_step(balances@, ops, at as int);
            assert(balance == balance_of(add_ops(balances@, ops.take(at as int)), key@));
        }
        match balance.checked_add(operation.delta) {
            Some(sum) => {
                let ghost before = add_ops(balances@, ops.take(at as int));
                let ghost changed_before = changed@;
                changed.insert(key, sum);
                proof {
                    assert forall|k: (Seq<char>, Seq<char>)| #[trigger]
                        balance_of(add_op(before, ops[at as int]), k) == if changed@.contains_key(k) {
                            changed@[k]
                        } else {
                            balance_of(balances@, k)
                        } by {
                        assert(balance_of(before, k) == if changed_before.contains_key(k) {
                            changed_before[k]
                        } else {
                            balance_of(balances@, k)
                        });
                    }
                }
            },
            None => {
                proof {
                    if ops_addable(balances@, ops) {
                        lemma_addable_prefix(balances@, ops, at as int);
                    }
                }
                return false;
            },
        }
        at = at + 1;
    }
    assert(ops.take(at as int) =~= ops);
    true
}

// ---------------------------------------------------------------- laws
/// The sum of what operations change one balance by.
pub open spec fn total(ops: Seq<OperationView>, key: (Seq<char>, Seq<char>)) -> int
    decreases ops.len(),
{
    if ops.len() == 0 {
        0
    } else {
        total(ops.drop_last(), key) + if op_key(ops.last()) == key {
            ops.last().delta as int
        } else {
            0
        }
    }
}

/// Each balance after operations is the balance before them plus the sum of
/// their changes to it, and no other balance is touched.
pub proof fn law_balance_is_the_sum_of_changes(
    balances: Map<(Seq<char>, Seq<char>), i64>,
    ops: Seq<OperationView>,
    key: (Seq<char>, Seq<char>),
)
    requires
        ops_addable(balances, ops),
    ensures
        balance_of(add_ops(balances, ops), key) == balance_of(balances, key) + total(ops, key),
    decreases ops.len(),
{
    if ops.len() > 0 {
        law_balance_is_the_sum_of_changes(balances, ops.drop_last(), key);
    }
}

/// An operation changes the balance of its owner and its stock-keeping unit by its
/// change, counted from zero where there was none, and no other balance.
pub proof fn law_operation_changes_one_balance(
    balances: Map<(Seq<char>, Seq<char>), i64>,
    op: OperationView,
    owner_id: Seq<char>,
    sku: Seq<char>,
)
    requires
        addable(balances, op),
    ensures
        ({
            let after = add_ops(balances, seq![op]);
            let key = (owner_id, sku);
            &&& owner_id == op.owner_id && sku == op.sku ==> after.contains_key(key) && after[key] == (
            if balances.contains_key(key) {
                balances[key] + op.delta
            } else {
                op.delta as int
            })
            &&& owner_id != op.owner_id || sku != op.sku ==> after.contains_key(key)
                == balances.contains_key(key) && after[key] == balances[key]
        }),
{
    let one = seq![op];
    assert(one.drop_last() =~= Seq::empty());
    assert(one.last() == op);
    assert(add_ops(balances, one) == add_op(add_ops(balances, one.drop_last()), op));
    assert(add_ops(balances, Seq::empty()) == balances);
}

/// A balance can be held exactly where it lies in the range of 64-bit numbers.
pub proof fn law_balances_have_a_range(
    balances: Map<(Seq<char>, Seq<char>), i64>,
    op: OperationView,
)
    ensures
        ops_addable(balances, seq![op]) <==> {
            let now = if balances.contains_key((op.owner_id, op.sku)) {
                balances[(op.owner_id, op.sku)] as int
            } else {
                0
            };
            -0x8000_0000_0000_0000 <= now + op.delta <= 0x7fff_ffff_ffff_ffff
        },
        ops_addable(balances, seq![op]) == addable(balances, op),
{
    let one = seq![op];
    assert(one.drop_last() =~= Seq::empty());
    assert(ops_addable(balances, one.drop_last()));
    assert(add_ops(balances, one.drop_last()) == balances);
}

/// Applying operations and then others is applying them all, one after another; all
/// of them can be applied exactly where the first can and then the others.
pub proof fn law_operations_are_applied_one_after_another(
    balances: Map<(Seq<char>, Seq<char>), i64>,
    a: Seq<OperationView>,
    b: Seq<OperationView>,
)
    ensures
        add_ops(balances, a + b) == add_ops(add_ops(balances, a), b),
        ops_addable(balances, a + b) <==> ops_addable(balances, a) && ops_addable(
            add_ops(balances, a),
            b,
        ),
        add_ops(balances, Seq::empty()) == balances,
        ops_addable(balances, Seq::empty()),
    decreases b.len(),
{
    if b.len() == 0 {
        assert(a + b =~= a);
    } else {
        law_operations_are_applied_one_after_another(balances, a, b.drop_last());
        assert((a + b).drop_last() =~= a + b.drop_last());
        assert((a + b).last() == b.last());
    }
}

/// What is recorded of a balance is the balance, and nothing recorded means zero.
pub proof fn law_nothing_recorded_is_zero(
    balances: Map<(Seq<char>, Seq<char>), i64>,
    key: (Seq<char>, Seq<char>),
)
    ensures
        balances.contains_key(key) ==> balance_of(balances, key) == balances[key],
        !balances.contains_key(key) ==> balance_of(balances, key) == 0,
{
}

/// The sum of changes counts the change of each operation on the balance once, in any
/// order, and no other.
pub proof fn law_sum_counts_each_change(
    a: Seq<OperationView>,
    op: OperationView,
    b: Seq<OperationView>,
    owner_id: Seq<char>,
    sku: Seq<char>,
)
    ensures
        total(a + seq![op] + b, (owner_id, sku)) == total(a + b, (owner_id, sku)) + (if op.owner_id
            == owner_id && op.sku == sku {
            op.delta as int
        } else {
            0
        }),
        total(a + b, (owner_id, sku)) == total(a, (owner_id, sku)) + total(b, (owner_id, sku)),
        total(Seq::empty(), (owner_id, sku)) == 0,
    decreases b.len(),
{
    let key = (owner_id, sku);
    let long = a + seq![op] + b;
    if b.len() == 0 {
        assert(long.drop_last() =~= a);
        assert(long.last() == op);
        assert(a + b =~= a);
    } else {
        law_sum_counts_each_change(a, op, b.drop_last(), owner_id, sku);
        assert(long.drop_last() =~= a + seq![op] + b.drop_last());
        assert((a + b).drop_last() =~= a + b.drop_last());
        assert(long.last() == b.last());
        assert((a + b).last() == b.last());
    }
}

/// The shard of a balance is told by the hash of its owner and its stock-keeping unit,
/// in this order, cut to the bits that number the shards.
pub proof fn law_shard_is_told_by_the_hash(owner_id: Seq<char>, sku: Seq<char>, count: usize)
    requires
        count > 0,
    ensures
        pair_code(owner_id, sku) == DefaultHasher::spec_finish(
            str_hash_writes(owner_id) + str_hash_writes(sku),
        ),
        0 <= balance_shard(owner_id, sku, count) < count,
        balance_shard(owner_id, sku, count) == (#[verifier::truncate] (pair_code(
            owner_id,
            sku,
        ) as usize) & (count - 1) as usize),
{
    let code: usize = #[verifier::truncate] (pair_code(owner_id, sku) as usize);
    let mask: usize = (count - 1) as usize;
    assert(code & mask <= mask) by (bit_vector);
}

} // verus!
