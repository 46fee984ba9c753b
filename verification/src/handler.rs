//! The invocation handler: decodes each record of a batch in order and
//! plans one upsert per item, short-circuiting at the first malformed
//! record; with a model of the destination table showing what a batch of
//! writes leaves behind.

use vstd::prelude::*;
use crate::config::Config;
use crate::item::{parse_item, DecodeError, Item, ItemModel};
use crate::schema::insert_query;
use vstd::string::StringExecFns;

verus! {

/// What one invocation will do with its batch: either every record decoded
/// and all items are to be written in order, or record `index` is the first
/// malformed one and only the items before it are to be written before the
/// error is reported.
pub enum BatchPlan {
    Complete(Vec<Item>),
    Truncated(Vec<Item>, usize, DecodeError),
}

/// Handler for one stream-trigger invocation, constructed once per process
/// and reused while the process lives.
pub struct GatewayKinesisLambdaTestHandler {
    pub config: Config,
    pub insert_text: String,
}

impl GatewayKinesisLambdaTestHandler {
    /// Builds the handler, retaining the configuration and the insert
    /// statement text to precompile against the session.
    pub fn new(config: Config) -> (h: Self)
        ensures
            h.insert_text@ == "INSERT INTO test_ks.test_table (id, description, count) VALUES (?, ?, ?)"@,
            h.config.log_level == config.log_level,
            h.config.cassandra_host@ == config.cassandra_host@,
            h.config.cassandra_port == config.cassandra_port,
    {
        let insert_text = String::from_str(insert_query());
        GatewayKinesisLambdaTestHandler { config, insert_text }
    }

    /// Decodes the records of one batch in input order and plans the
    /// writes, stopping at the first record that does not decode; the plan
    /// pins down exactly which records decoded and to what.
    pub fn run(&self, records: &Vec<Vec<u8>>) -> (out: BatchPlan)
        ensures
            match out {
                BatchPlan::Complete(items) => {
                    &&& items@.len() == records@.len()
                    &&& forall|k: int|
                        0 <= k < records@.len() ==> parse_item(records@[k]@) == Some(
                            #[trigger] items@[k]@,
                        )
                },
                BatchPlan::Truncated(items, index, _) => {
                    &&& 0 <= index < records@.len()
                    &&& parse_item(records@[index as int]@) is None
                    &&& items@.len() == index
                    &&& forall|k: int|
                        0 <= k < index ==> parse_item(records@[k]@) == Some(#[trigger] items@[k]@)
                },
            },
    {
        let mut items: Vec<Item> = Vec::new();
        let mut k: usize = 0;
        while k < records.len()
            invariant
                0 <= k <= records@.len(),
                items@.len() == k,
                forall|m: int|
                    0 <= m < k ==> parse_item(records@[m]@) == Some(#[trigger] items@[m]@),
            decreases records@.len() - k,
        {
            match Item::decode(&records[k]) {
                Ok(item) => {
                    items.push(item);
                },
                Err(e) => {
                    return BatchPlan::Truncated(items, k, e);
                },
            }
            k = k + 1;
        }
        BatchPlan::Complete(items)
    }
}

/// The destination table, modelled as a map from primary key to row.
pub open spec fn upsert(table: Map<int, ItemModel>, m: ItemModel) -> Map<int, ItemModel> {
    table.insert(m.id, m)
}

/// Effect of writing the items in input order, each write an independent
/// upsert keyed by the identifier.
pub open spec fn apply_writes(table: Map<int, ItemModel>, items: Seq<ItemModel>) -> Map<
    int,
    ItemModel,
>
    decreases items.len(),
{
    if items.len() == 0 {
        table
    } else {
        apply_writes(upsert(table, items[0]), items.drop_first())
    }
}

/// Identifiers of a sequence of items.
pub open spec fn ids_of(items: Seq<ItemModel>) -> Set<int> {
    Set::new(|id: int| exists|k: int| 0 <= k < items.len() && items[k].id == id)
}

/// Pairwise distinct identifiers.
pub open spec fn unique_ids(items: Seq<ItemModel>) -> bool {
    forall|k1: int, k2: int|
        0 <= k1 < items.len() && 0 <= k2 < items.len() && k1 != k2 ==> items[k1].id != items[k2].id
}

/// Law: writing a batch of items with pairwise distinct identifiers upserts
/// exactly those rows, in input order: afterwards every item of the batch
/// sits in the table under its identifier, a key outside the batch is bound
/// exactly as before, and the table's keys are the old ones plus the batch's
/// identifiers.
pub proof fn lemma_batch_upserts(table: Map<int, ItemModel>, items: Seq<ItemModel>)
    requires
        unique_ids(items),
    ensures
        apply_writes(table, items).dom() =~= table.dom() + ids_of(items),
        forall|k: int|
            0 <= k < items.len() ==> apply_writes(table, items)[(#[trigger] items[k]).id] == items[k],
        forall|id: int|
            !ids_of(items).contains(id) ==> (apply_writes(table, items).contains_key(id)
                == table.contains_key(id) && (table.contains_key(id) ==> apply_writes(table, items)[id]
                == table[id])),
    decreases items.len(),
{
    if items.len() == 0 {
        assert(ids_of(items) =~= Set::<int>::empty());
    } else {
        let rest = items.drop_first();
        let t1 = upsert(table, items[0]);
        lemma_batch_upserts(t1, rest);
        assert forall|k: int| 0 <= k < items.len() implies apply_writes(table, items)[(
        #[trigger] items[k]).id] == items[k] by {
            if k == 0 {
                assert(!ids_of(rest).contains(items[0].id));
                assert(t1[items[0].id] == items[0]);
            } else {
                assert(rest[k - 1] == items[k]);
                assert(apply_writes(t1, rest)[rest[k - 1].id] == rest[k - 1]);
            }
        }
        assert(apply_writes(table, items).dom() =~= table.dom() + ids_of(items)) by {
            assert(apply_writes(t1, rest).dom() =~= t1.dom() + ids_of(rest));
            assert forall|id: int| ids_of(items).contains(id) implies t1.dom().contains(id)
                || ids_of(rest).contains(id) by {
                let k = choose|k: int| 0 <= k < items.len() && items[k].id == id;
                if k == 0 {
                } else {
                    assert(rest[k - 1] == items[k]);
                    assert(0 <= k - 1 < rest.len() && rest[k - 1].id == id);
                }
            }
            assert forall|id: int| ids_of(rest).contains(id) implies ids_of(items).contains(
                id,
            ) by {
                let k = choose|k: int| 0 <= k < rest.len() && rest[k].id == id;
                assert(items[k + 1] == rest[k]);
            }
        }
        assert forall|id: int| !ids_of(items).contains(id) implies (apply_writes(
            table,
            items,
        ).contains_key(id) == table.contains_key(id) && (table.contains_key(id) ==> apply_writes(
            table,
            items,
        )[id] == table[id])) by {
            assert(id != items[0].id);
            assert forall|k: int| 0 <= k < rest.len() implies rest[k].id != id by {
                assert(items[k + 1] == rest[k]);
            }
            assert(!ids_of(rest).contains(id));
            assert(apply_writes(table, items) == apply_writes(t1, rest));
            assert(apply_writes(t1, rest).contains_key(id) == t1.contains_key(id));
            assert(t1.contains_key(id) == table.contains_key(id));
            if table.contains_key(id) {
                assert(t1[id] == table[id]);
                assert(apply_writes(t1, rest)[id] == t1[id]);
            }
        }
    }
}

/// Models of the first `n` records of a batch, each of which decodes.
pub open spec fn decoded_prefix(records: Seq<Seq<u8>>, n: int) -> Seq<ItemModel> {
    Seq::new(n as nat, |k: int| parse_item(records[k])->Some_0)
}

/// Law: a batch whose records all decode, with pairwise distinct decoded
/// identifiers, leaves exactly one row per record in an empty table, each
/// row equal to its record's decoded item.
pub proof fn lemma_well_formed_batch(records: Seq<Seq<u8>>)
    requires
        forall|k: int| 0 <= k < records.len() ==> parse_item(#[trigger] records[k]) is Some,
        unique_ids(decoded_prefix(records, records.len() as int)),
    ensures
        apply_writes(Map::empty(), decoded_prefix(records, records.len() as int)).dom() =~= ids_of(
            decoded_prefix(records, records.len() as int),
        ),
        forall|k: int|
            0 <= k < records.len() ==> apply_writes(
                Map::empty(),
                decoded_prefix(records, records.len() as int),
            )[(#[trigger] decoded_prefix(records, records.len() as int)[k]).id] == decoded_prefix(
                records,
                records.len() as int,
            )[k],
{
    let items = decoded_prefix(records, records.len() as int);
    lemma_batch_upserts(Map::empty(), items);
    assert(apply_writes(Map::empty(), items).dom() =~= Map::<int, ItemModel>::empty().dom()
        + ids_of(items));
    assert(apply_writes(Map::empty(), items).dom() =~= ids_of(items));
}

/// Law: when record `index` is the first malformed record of a batch and the
/// decoded identifiers are pairwise distinct, the handler reports failure
/// after writing exactly the rows of the records before `index` into an
/// empty table; the rows of the records at and after `index` are absent.
pub proof fn lemma_malformed_short_circuit(records: Seq<Seq<u8>>, index: int)
    requires
        0 <= index < records.len(),
        forall|k: int| 0 <= k < index ==> parse_item(#[trigger] records[k]) is Some,
        parse_item(records[index]) is None,
        unique_ids(decoded_prefix(records, index)),
        forall|k: int|
            index < k < records.len() && parse_item(#[trigger] records[k]) is Some ==> !ids_of(
                decoded_prefix(records, index),
            ).contains(parse_item(records[k])->Some_0.id),
    ensures
        apply_writes(Map::empty(), decoded_prefix(records, index)).dom() =~= ids_of(
            decoded_prefix(records, index),
        ),
        forall|k: int|
            0 <= k < index ==> apply_writes(Map::empty(), decoded_prefix(records, index))[(
            #[trigger] decoded_prefix(records, index)[k]).id] == decoded_prefix(records, index)[k],
        forall|k: int|
            index < k < records.len() && parse_item(#[trigger] records[k]) is Some ==> !apply_writes(
                Map::empty(),
                decoded_prefix(records, index),
            ).contains_key(parse_item(records[k])->Some_0.id),
{
    let prefix = decoded_prefix(records, index);
    lemma_batch_upserts(Map::empty(), prefix);
    assert(apply_writes(Map::empty(), prefix).dom() =~= Map::<int, ItemModel>::empty().dom()
        + ids_of(prefix));
    assert(apply_writes(Map::empty(), prefix).dom() =~= ids_of(prefix));
}

} // verus!
