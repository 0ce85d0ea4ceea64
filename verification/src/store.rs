use crate::errors::StoreError;
use rkv::backend::BackendEnvironmentBuilder;
use vstd::prelude::*;

verus! {

/// Handle to one durable key-value storage location: an environment plus a
/// single database in it. At most one writer is active at a time; readers
/// observe the last committed snapshot.
#[verifier::external_body]
pub struct StoreHandle {
    env: rkv::Rkv<rkv::backend::SafeModeEnvironment>,
    db: rkv::SingleStore<rkv::backend::SafeModeDatabase>,
}

/// The committed contents of the store: each key maps to the value most
/// recently written for it by a committed transaction.
pub uninterp spec fn store_map(s: StoreHandle) -> Map<Seq<u8>, Seq<u8>>;

/// The committed contents after writing `entries` in order within one
/// transaction: a later entry with the same key overwrites an earlier one.
pub open spec fn map_after_batch(
    m: Map<Seq<u8>, Seq<u8>>,
    entries: Seq<(Seq<u8>, Seq<u8>)>,
) -> Map<Seq<u8>, Seq<u8>>
    decreases entries.len(),
{
    if entries.len() == 0 {
        m
    } else {
        map_after_batch(m, entries.drop_last()).insert(entries.last().0, entries.last().1)
    }
}

/// Relies on rkv::Rkv::from_builder with the safe-mode backend, its builder
/// asked to create the storage directory if absent, on Rkv::get_dbs, and on
/// Rkv::open_single with create options. A location that already holds the
/// staging database is refused, since a pre-existing database keeps
/// whatever flags it was created with; the database behind an `Ok` handle
/// was therefore created by this very call, empty and with default flags,
/// under which a put overwrites and iteration yields one row per key — the
/// ground the other wrappers' contracts stand on.
#[verifier::external_body]
pub fn store_open(path: &str) -> (r: Result<StoreHandle, StoreError>)
    ensures
        match r {
            Ok(h) => store_map(h) == Map::<Seq<u8>, Seq<u8>>::empty(),
            Err(e) => e == StoreError::IoFailure,
        },
{
    let mut builder = rkv::backend::SafeMode::new();
    builder.set_make_dir_if_needed(true);
    let env: rkv::Rkv<rkv::backend::SafeModeEnvironment> = rkv::Rkv::from_builder(
        std::path::Path::new(path),
        builder,
    ).map_err(|_| StoreError::IoFailure)?;
    let names = env.get_dbs().map_err(|_| StoreError::IoFailure)?;
    if names.iter().any(|n| n.as_deref() == Some("staging")) {
        return Err(StoreError::IoFailure);
    }
    let db = env
        .open_single("staging", rkv::StoreOptions::create())
        .map_err(|_| StoreError::IoFailure)?;
    Ok(StoreHandle { env, db })
}

/// Relies on rkv::SingleStore::put with Value::Blob and rkv::Writer::commit,
/// on a database `store_open` created with default flags, under which a
/// later put of the same key overwrites the earlier value. The whole batch
/// forms one write transaction, so it becomes visible atomically: on
/// success the committed contents gain exactly these entries in order. A
/// put failure aborts the transaction cleanly, but a commit whose disk
/// write fails has already replaced the in-memory databases, so on failure
/// this handle may read either the old or the new contents: the Err clause
/// promises no more than that. The loop lives in this body because the
/// write transaction borrows the environment for its whole life.
#[verifier::external_body]
pub fn store_commit_batch(s: &mut StoreHandle, entries: &Vec<(Vec<u8>, Vec<u8>)>) -> (r: Result<
    (),
    StoreError,
>)
    ensures
        match r {
            Ok(_) => store_map(*final (s)) == map_after_batch(
                store_map(*old(s)),
                entries.deep_view(),
            ),
            Err(e) => (store_map(*final (s)) == store_map(*old(s)) || store_map(*final (s))
                == map_after_batch(store_map(*old(s)), entries.deep_view())) && (e
                == StoreError::IoFailure || e == StoreError::WriterContention),
        },
{
    let mut writer = s.env.write().map_err(|_| StoreError::WriterContention)?;
    for (k, v) in entries.iter() {
        if s.db.put(&mut writer, k, &rkv::Value::Blob(v)).is_err() {
            return Err(StoreError::IoFailure);
        }
    }
    writer.commit().map_err(|_| StoreError::IoFailure)
}

/// Relies on rkv::SingleStore::iter_start over a read snapshot of a
/// database `store_open` created with default flags: it yields each
/// committed pair exactly once, so the result is the committed map, pair
/// for pair, with as many rows as the map has keys.
#[verifier::external_body]
pub fn store_read_all(s: &StoreHandle) -> (r: Result<Vec<(Vec<u8>, Vec<u8>)>, StoreError>)
    ensures
        match r {
            Ok(v) => {
                &&& forall|i: int|
                    0 <= i < v.deep_view().len() ==> store_map(*s).contains_pair(
                        (#[trigger] v.deep_view()[i]).0,
                        v.deep_view()[i].1,
                    )
                &&& forall|i: int, j: int|
                    0 <= i < j < v.deep_view().len() ==> (#[trigger] v.deep_view()[i]).0 != (
                    #[trigger] v.deep_view()[j]).0
                &&& forall|k: Seq<u8>|
                    store_map(*s).dom().contains(k) ==> exists|i: int|
                        0 <= i < v.deep_view().len() && (#[trigger] v.deep_view()[i]).0 == k
                &&& v.deep_view().len() == store_map(*s).dom().len()
            },
            Err(e) => e == StoreError::IoFailure,
        },
{
    let reader = s.env.read().map_err(|_| StoreError::IoFailure)?;
    let iter = s.db.iter_start(&reader).map_err(|_| StoreError::IoFailure)?;
    let mut out: Vec<(Vec<u8>, Vec<u8>)> = Vec::new();
    for item in iter {
        match item {
            Ok((k, rkv::Value::Blob(b))) => out.push((k.to_vec(), b.to_vec())),
            _ => return Err(StoreError::IoFailure),
        }
    }
    Ok(out)
}

} // verus!
