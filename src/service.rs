//! The command dispatcher: each request is answered by exactly one handler,
//! against the store, and every request gets a response.
use vstd::prelude::*;
use vstd::string::StringExecFns;

use crate::error::KvError;
use crate::pb::{
    failed, keys_view, ok_pairs, ok_values, CommandRequest, CommandResponse, Hdel, Hexist, Hget,
    Hgetall, Hmdel, Hmexist, Hmget, Hmset, Hset, Kvpair, RequestData, ResponseView, Value, ValueData,
    value_or_none,
};
use crate::storage::{
    keys_unique, lemma_del_wf, lemma_lookup_upsert, lemma_remove_unique, lemma_set_wf,
    lemma_table_unique, lookup, store_del, store_get, store_set, store_wf, table_entries, Storage,
    Tables,
};

verus! {

/// The value read from (`t`, `k`), the "no value" sentinel where there is none.
pub open spec fn got(m: Tables, t: Seq<char>, k: Seq<char>) -> Option<ValueData> {
    match store_get(m, t, k) {
        Some(v) => v,
        None => None,
    }
}

/// Whether (`t`, `k`) holds a value, as a value.
pub open spec fn exists_value(m: Tables, t: Seq<char>, k: Seq<char>) -> Option<ValueData> {
    Some(ValueData::Flag(store_get(m, t, k) is Some))
}

/// The store after the pairs `ps` are set in `t`, one after another.
pub open spec fn mset_state(m: Tables, t: Seq<char>, ps: Seq<(Seq<char>, Option<ValueData>)>) -> Tables
    decreases ps.len(),
{
    if ps.len() == 0 {
        m
    } else {
        store_set(mset_state(m, t, ps.drop_last()), t, ps.last().0, ps.last().1)
    }
}

/// The previous values that setting the pairs `ps` in `t` returns, in order.
pub open spec fn mset_values(m: Tables, t: Seq<char>, ps: Seq<(Seq<char>, Option<ValueData>)>) -> Seq<
    Option<ValueData>,
>
    decreases ps.len(),
{
    if ps.len() == 0 {
        Seq::empty()
    } else {
        mset_values(m, t, ps.drop_last()).push(got(mset_state(m, t, ps.drop_last()), t, ps.last().0))
    }
}

/// The store after the keys `ks` are removed from `t`, one after another.
pub open spec fn mdel_state(m: Tables, t: Seq<char>, ks: Seq<Seq<char>>) -> Tables
    decreases ks.len(),
{
    if ks.len() == 0 {
        m
    } else {
        store_del(mdel_state(m, t, ks.drop_last()), t, ks.last())
    }
}

/// The values that removing the keys `ks` from `t` returns, in order.
pub open spec fn mdel_values(m: Tables, t: Seq<char>, ks: Seq<Seq<char>>) -> Seq<Option<ValueData>>
    decreases ks.len(),
{
    if ks.len() == 0 {
        Seq::empty()
    } else {
        mdel_values(m, t, ks.drop_last()).push(got(mdel_state(m, t, ks.drop_last()), t, ks.last()))
    }
}

/// The response to a request, and the store after it.
pub open spec fn answer(req: CommandRequest, m: Tables) -> (ResponseView, Tables) {
    match req.request_data {
        None => (ResponseView {
            status: 400,
            message: "Invalid command: request carries no command"@,
            values: Seq::empty(),
            pairs: Seq::empty(),
        }, m),
        Some(RequestData::Hget(h)) => match store_get(m, h.table@, h.key@) {
            Some(v) => (ok_values(seq![v]), m),
            None => (failed(KvError::NotFound(h.table, h.key)), m),
        },
        Some(RequestData::Hgetall(h)) => (ok_pairs(table_entries(m, h.table@)), m),
        Some(RequestData::Hmget(h)) => (
            ok_values(keys_view(h.keys@).map_values(|k: Seq<char>| got(m, h.table@, k))),
            m,
        ),
        Some(RequestData::Hset(h)) => match h.pair {
            Some(p) => (
                ok_values(seq![got(m, h.table@, p.key@)]),
                store_set(m, h.table@, p.key@, p@.1),
            ),
            None => (ok_values(seq![None]), m),
        },
        Some(RequestData::Hmset(h)) => (
            ok_values(mset_values(m, h.table@, h.pairs@.map_values(|p: Kvpair| p@))),
            mset_state(m, h.table@, h.pairs@.map_values(|p: Kvpair| p@)),
        ),
        Some(RequestData::Hdel(h)) => match store_get(m, h.table@, h.key@) {
            Some(v) => (ok_values(seq![v]), store_del(m, h.table@, h.key@)),
            None => (failed(KvError::NotFound(h.table, h.key)), store_del(m, h.table@, h.key@)),
        },
        Some(RequestData::Hmdel(h)) => (
            ok_values(mdel_values(m, h.table@, keys_view(h.keys@))),
            mdel_state(m, h.table@, keys_view(h.keys@)),
        ),
        Some(RequestData::Hexist(h)) => (ok_values(seq![exists_value(m, h.table@, h.key@)]), m),
        Some(RequestData::Hmexist(h)) => (
            ok_values(keys_view(h.keys@).map_values(|k: Seq<char>| exists_value(m, h.table@, k))),
            m,
        ),
    }
}

fn value_or_default(v: Option<Value>) -> (r: Value)
    ensures
        r@ == match v {
            Some(x) => x@,
            None => None,
        },
{
    match v {
        Some(x) => x,
        None => Value::default(),
    }
}

/// The slot that one read of a batch contributes: the value, or the "no
/// value" sentinel.
pub open spec fn slot(r: Result<Option<Value>, KvError>) -> Option<ValueData> {
    match r {
        Ok(Some(v)) => v@,
        _ => None,
    }
}

/// The slot that one existence check of a batch contributes.
pub open spec fn flag_slot(r: Result<bool, KvError>) -> Option<ValueData> {
    match r {
        Ok(b) => Some(ValueData::Flag(b)),
        Err(_) => None,
    }
}

/// Every store call of a batch succeeded.
pub open spec fn all_ok<T>(rs: Seq<Result<T, KvError>>) -> bool {
    forall|i: int| 0 <= i < rs.len() ==> (#[trigger] rs[i]) is Ok
}

/// The store call at `j` is the first of the batch that failed.
pub open spec fn first_error_at<T>(rs: Seq<Result<T, KvError>>, j: int) -> bool {
    &&& 0 <= j < rs.len()
    &&& rs[j] is Err
    &&& forall|i: int| 0 <= i < j ==> (#[trigger] rs[i]) is Ok
}

/// The batch of sets stopped after its first `j` pairs, for some `j` short
/// of all of them, leaving the store at `fin`.
pub open spec fn set_stopped(m: Tables, t: Seq<char>, ps: Seq<(Seq<char>, Option<ValueData>)>, fin: Tables) -> bool {
    exists|j: int| 0 <= j < ps.len() && fin == mset_state(m, t, #[trigger] ps.subrange(0, j))
}

/// The batch of removals stopped after its first `j` keys, for some `j`
/// short of all of them, leaving the store at `fin`.
pub open spec fn del_stopped(m: Tables, t: Seq<char>, ks: Seq<Seq<char>>, fin: Tables) -> bool {
    exists|j: int| 0 <= j < ks.len() && fin == mdel_state(m, t, #[trigger] ks.subrange(0, j))
}

/// `r` answers some error.
pub open spec fn is_failure(r: ResponseView) -> bool {
    exists|e: KvError| r == #[trigger] failed(e)
}

/// `r` is the expected response `want`, or the answer to some error of the
/// backend.
pub open spec fn answered(r: ResponseView, want: ResponseView) -> bool {
    r == want || is_failure(r)
}

/// The answer to a single read or removal, from what the store returned.
pub fn lookup_answer(table: String, key: String, res: Result<Option<Value>, KvError>) -> (r: CommandResponse)
    ensures
        match res {
            Ok(Some(v)) => r@ == ok_values(seq![v@]),
            Ok(None) => r@ == failed(KvError::NotFound(table, key)),
            Err(e) => r@ == failed(e),
        },
{
    match res {
        Ok(Some(v)) => CommandResponse::from_value(v),
        Ok(None) => CommandResponse::from_error(KvError::NotFound(table, key)),
        Err(e) => CommandResponse::from_error(e),
    }
}

/// The answer to a set, from what the store returned: the replaced value,
/// or the "no value" sentinel.
pub fn set_answer(res: Result<Option<Value>, KvError>) -> (r: CommandResponse)
    ensures
        match res {
            Ok(v) => r@ == ok_values(seq![value_or_none(v)]),
            Err(e) => r@ == failed(e),
        },
{
    match res {
        Ok(v) => CommandResponse::from_value(value_or_default(v)),
        Err(e) => CommandResponse::from_error(e),
    }
}

/// The answer to an existence check, from what the store returned.
pub fn exists_answer(res: Result<bool, KvError>) -> (r: CommandResponse)
    ensures
        match res {
            Ok(b) => r@ == ok_values(seq![Some(ValueData::Flag(b))]),
            Err(e) => r@ == failed(e),
        },
{
    match res {
        Ok(b) => CommandResponse::from_value(Value::from(b)),
        Err(e) => CommandResponse::from_error(e),
    }
}

/// The answer to a full listing, from what the store returned.
pub fn listing_answer(res: Result<Vec<Kvpair>, KvError>) -> (r: CommandResponse)
    ensures
        match res {
            Ok(ps) => r@ == ok_pairs(ps@.map_values(|p: Kvpair| p@)),
            Err(e) => r@ == failed(e),
        },
{
    match res {
        Ok(ps) => CommandResponse::from_pairs(ps),
        Err(e) => CommandResponse::from_error(e),
    }
}

/// The answer to a batch of reads, set or removals, from what the store
/// returned for each key in order: one slot per key when every call
/// succeeded, the first error otherwise.
pub fn batch_answer(rs: Vec<Result<Option<Value>, KvError>>) -> (r: CommandResponse)
    ensures
        all_ok(rs@) ==> r@ == ok_values(rs@.map_values(|x: Result<Option<Value>, KvError>| slot(x))),
        forall|j: int| #[trigger] first_error_at(rs@, j) ==> r@ == failed(rs@[j]->Err_0),
{
    let mut rs = rs;
    let ghost rs0 = rs@;
    let mut j: usize = 0;
    while j < rs.len() && rs[j].is_ok()
        invariant
            rs@ == rs0,
            j <= rs@.len(),
            forall|i: int| 0 <= i < j ==> (#[trigger] rs@[i]) is Ok,
        decreases rs@.len() - j,
    {
        j = j + 1;
    }
    if j < rs.len() {
        assert(first_error_at(rs0, j as int));
        assert forall|k: int| #[trigger] first_error_at(rs0, k) implies k == j by {
            if k < j {
                assert(rs0[k] is Ok);
            } else if k > j {
                assert(rs0[j as int] is Ok);
            }
        }
        match rs.remove(j) {
            Err(e) => CommandResponse::from_error(e),
            Ok(_) => CommandResponse::from_values(Vec::new()),
        }
    } else {
        let mut out: Vec<Value> = Vec::new();
        let mut i: usize = 0;
        while i < rs.len()
            invariant
                i <= rs@.len(),
                out@.map_values(|v: Value| v@) =~= rs@.subrange(0, i as int).map_values(
                    |x: Result<Option<Value>, KvError>| slot(x),
                ),
            decreases rs@.len() - i,
        {
            let v = match &rs[i] {
                Ok(Some(v)) => v.duplicate(),
                _ => Value::default(),
            };
            let ghost before = out@;
            out.push(v);
            assert(out@.map_values(|v: Value| v@) =~= before.map_values(|v: Value| v@).push(v@));
            i = i + 1;
        }
        assert(rs@.subrange(0, i as int) =~= rs@);
        assert forall|k: int| !#[trigger] first_error_at(rs0, k) by {
            if 0 <= k < rs0.len() {
                assert(rs0[k] is Ok);
            }
        }
        CommandResponse::from_values(out)
    }
}

/// The answer to a batch of existence checks, from what the store returned
/// for each key in order: one flag per key when every call succeeded, the
/// first error otherwise.
pub fn batch_exists_answer(rs: Vec<Result<bool, KvError>>) -> (r: CommandResponse)
    ensures
        all_ok(rs@) ==> r@ == ok_values(rs@.map_values(|x: Result<bool, KvError>| flag_slot(x))),
        forall|j: int| #[trigger] first_error_at(rs@, j) ==> r@ == failed(rs@[j]->Err_0),
{
    let mut rs = rs;
    let ghost rs0 = rs@;
    let mut j: usize = 0;
    while j < rs.len() && rs[j].is_ok()
        invariant
            rs@ == rs0,
            j <= rs@.len(),
            forall|i: int| 0 <= i < j ==> (#[trigger] rs@[i]) is Ok,
        decreases rs@.len() - j,
    {
        j = j + 1;
    }
    if j < rs.len() {
        assert(first_error_at(rs0, j as int));
        assert forall|k: int| #[trigger] first_error_at(rs0, k) implies k == j by {
            if k < j {
                assert(rs0[k] is Ok);
            } else if k > j {
                assert(rs0[j as int] is Ok);
            }
        }
        match rs.remove(j) {
            Err(e) => CommandResponse::from_error(e),
            Ok(_) => CommandResponse::from_values(Vec::new()),
        }
    } else {
        let mut out: Vec<Value> = Vec::new();
        let mut i: usize = 0;
        while i < rs.len()
            invariant
                i <= rs@.len(),
                out@.map_values(|v: Value| v@) =~= rs@.subrange(0, i as int).map_values(
                    |x: Result<bool, KvError>| flag_slot(x),
                ),
            decreases rs@.len() - i,
        {
            let v = match &rs[i] {
                Ok(b) => Value::from(*b),
                Err(_) => Value::default(),
            };
            let ghost before = out@;
            out.push(v);
            assert(out@.map_values(|v: Value| v@) =~= before.map_values(|v: Value| v@).push(v@));
            i = i + 1;
        }
        assert(rs@.subrange(0, i as int) =~= rs@);
        assert forall|k: int| !#[trigger] first_error_at(rs0, k) by {
            if 0 <= k < rs0.len() {
                assert(rs0[k] is Ok);
            }
        }
        CommandResponse::from_values(out)
    }
}

proof fn lemma_mset_values(m: Tables, t: Seq<char>, ps: Seq<(Seq<char>, Option<ValueData>)>)
    ensures
        mset_values(m, t, ps).len() == ps.len(),
        forall|j: int|
            0 <= j < ps.len() ==> #[trigger] mset_values(m, t, ps)[j] == got(
                mset_state(m, t, ps.subrange(0, j)),
                t,
                ps[j].0,
            ),
    decreases ps.len(),
{
    if ps.len() > 0 {
        let init = ps.drop_last();
        lemma_mset_values(m, t, init);
        assert forall|j: int| 0 <= j < ps.len() implies #[trigger] mset_values(m, t, ps)[j] == got(
            mset_state(m, t, ps.subrange(0, j)),
            t,
            ps[j].0,
        ) by {
            if j < ps.len() - 1 {
                assert(init.subrange(0, j) =~= ps.subrange(0, j));
                assert(mset_values(m, t, init)[j] == got(mset_state(m, t, init.subrange(0, j)), t, init[j].0));
            } else {
                assert(ps.subrange(0, j) =~= init);
            }
        }
    }
}

proof fn lemma_mdel_values(m: Tables, t: Seq<char>, ks: Seq<Seq<char>>)
    ensures
        mdel_values(m, t, ks).len() == ks.len(),
        forall|j: int|
            0 <= j < ks.len() ==> #[trigger] mdel_values(m, t, ks)[j] == got(
                mdel_state(m, t, ks.subrange(0, j)),
                t,
                ks[j],
            ),
    decreases ks.len(),
{
    if ks.len() > 0 {
        let init = ks.drop_last();
        lemma_mdel_values(m, t, init);
        assert forall|j: int| 0 <= j < ks.len() implies #[trigger] mdel_values(m, t, ks)[j] == got(
            mdel_state(m, t, ks.subrange(0, j)),
            t,
            ks[j],
        ) by {
            if j < ks.len() - 1 {
                assert(init.subrange(0, j) =~= ks.subrange(0, j));
                assert(mdel_values(m, t, init)[j] == got(mdel_state(m, t, init.subrange(0, j)), t, init[j]));
            } else {
                assert(ks.subrange(0, j) =~= init);
            }
        }
    }
}

impl Hget {
    /// The value under the key; 404 where there is none; the backend's
    /// error where the read failed (see `lookup_answer`).
    pub fn execute<S: Storage>(self, store: &S) -> (r: CommandResponse)
        ensures
            answered(r@, answer(request(RequestData::Hget(self)), store.model()).0),
            store.infallible() ==> r@ == answer(request(RequestData::Hget(self)), store.model()).0,
    {
        let res = store.get(self.table.as_str(), self.key.as_str());
        let ghost g = res;
        let r = lookup_answer(self.table, self.key, res);
        proof {
            if let Err(e) = g {
                assert(r@ == failed(e));
            }
        }
        r
    }
}

impl Hgetall {
    /// Every pair of the table, in the table's order; the backend's error
    /// where the listing failed (see `listing_answer`).
    pub fn execute<S: Storage>(self, store: &S) -> (r: CommandResponse)
        ensures
            answered(r@, answer(request(RequestData::Hgetall(self)), store.model()).0),
            store.infallible() ==> r@ == answer(request(RequestData::Hgetall(self)), store.model()).0,
    {
        let res = store.get_all(self.table.as_str());
        let ghost g = res;
        let r = listing_answer(res);
        proof {
            if let Err(e) = g {
                assert(r@ == failed(e));
            }
        }
        r
    }
}

impl Hexist {
    /// Whether the key holds a value; the backend's error where the check
    /// failed (see `exists_answer`).
    pub fn execute<S: Storage>(self, store: &S) -> (r: CommandResponse)
        ensures
            answered(r@, answer(request(RequestData::Hexist(self)), store.model()).0),
            store.infallible() ==> r@ == answer(request(RequestData::Hexist(self)), store.model()).0,
    {
        let res = store.contains(self.table.as_str(), self.key.as_str());
        let ghost g = res;
        let r = exists_answer(res);
        proof {
            if let Err(e) = g {
                assert(r@ == failed(e));
            }
        }
        r
    }
}

impl Hmget {
    /// The value under each key, in order; the "no value" sentinel for a
    /// missing key. The first failed read ends the batch and answers for all
    /// of it (see `batch_answer`).
    pub fn execute<S: Storage>(self, store: &S) -> (r: CommandResponse)
        ensures
            answered(r@, answer(request(RequestData::Hmget(self)), store.model()).0),
            store.infallible() ==> r@ == answer(request(RequestData::Hmget(self)), store.model()).0,
            self.keys@.len() == 0 ==> r@ == ok_values(Seq::empty()),
    {
        let ghost ks = keys_view(self.keys@);
        let ghost t = self.table@;
        let mut rs: Vec<Result<Option<Value>, KvError>> = Vec::new();
        let mut stop = false;
        let mut i: usize = 0;
        while i < self.keys.len() && !stop
            invariant
                i <= self.keys@.len(),
                rs@.len() == i,
                ks == keys_view(self.keys@),
                t == self.table@,
                stop ==> i > 0 && rs@[i - 1] is Err,
                forall|j: int| 0 <= j < i && (#[trigger] rs@[j]) is Err ==> stop && j == i - 1,
                forall|j: int|
                    0 <= j < i && (#[trigger] rs@[j]) is Ok ==> slot(rs@[j]) == got(store.model(), t, ks[j]),
                store.infallible() ==> !stop,
            decreases self.keys@.len() - i,
        {
            let res = store.get(self.table.as_str(), self.keys[i].as_str());
            stop = res.is_err();
            rs.push(res);
            i = i + 1;
        }
        let ghost rs0 = rs@;
        let r = batch_answer(rs);
        proof {
            if stop {
                assert(first_error_at(rs0, i - 1));
                assert(r@ == failed(rs0[i - 1]->Err_0));
            } else {
                assert(all_ok(rs0));
                assert(rs0.map_values(|x: Result<Option<Value>, KvError>| slot(x)).len() == 0 ==> rs0.map_values(
                    |x: Result<Option<Value>, KvError>| slot(x),
                ) =~= Seq::<Option<ValueData>>::empty());
                assert(rs0.map_values(|x: Result<Option<Value>, KvError>| slot(x)) =~= ks.map_values(
                    |k: Seq<char>| got(store.model(), t, k),
                ));
            }
        }
        r
    }
}

impl Hmexist {
    /// Whether each key holds a value, in order. The first failed check ends
    /// the batch and answers for all of it (see `batch_exists_answer`).
    pub fn execute<S: Storage>(self, store: &S) -> (r: CommandResponse)
        ensures
            answered(r@, answer(request(RequestData::Hmexist(self)), store.model()).0),
            store.infallible() ==> r@ == answer(request(RequestData::Hmexist(self)), store.model()).0,
            self.keys@.len() == 0 ==> r@ == ok_values(Seq::empty()),
    {
        let ghost ks = keys_view(self.keys@);
        let ghost t = self.table@;
        let mut rs: Vec<Result<bool, KvError>> = Vec::new();
        let mut stop = false;
        let mut i: usize = 0;
        while i < self.keys.len() && !stop
            invariant
                i <= self.keys@.len(),
                rs@.len() == i,
                ks == keys_view(self.keys@),
                t == self.table@,
                stop ==> i > 0 && rs@[i - 1] is Err,
                forall|j: int| 0 <= j < i && (#[trigger] rs@[j]) is Err ==> stop && j == i - 1,
                forall|j: int|
                    0 <= j < i && (#[trigger] rs@[j]) is Ok ==> flag_slot(rs@[j]) == exists_value(
                        store.model(),
                        t,
                        ks[j],
                    ),
                store.infallible() ==> !stop,
            decreases self.keys@.len() - i,
        {
            let res = store.contains(self.table.as_str(), self.keys[i].as_str());
            stop = res.is_err();
            rs.push(res);
            i = i + 1;
        }
        let ghost rs0 = rs@;
        let r = batch_exists_answer(rs);
        proof {
            if stop {
                assert(first_error_at(rs0, i - 1));
                assert(r@ == failed(rs0[i - 1]->Err_0));
            } else {
                assert(all_ok(rs0));
                assert(rs0.map_values(|x: Result<bool, KvError>| flag_slot(x)).len() == 0 ==> rs0.map_values(
                    |x: Result<bool, KvError>| flag_slot(x),
                ) =~= Seq::<Option<ValueData>>::empty());
                assert(rs0.map_values(|x: Result<bool, KvError>| flag_slot(x)) =~= ks.map_values(
                    |k: Seq<char>| exists_value(store.model(), t, k),
                ));
            }
        }
        r
    }
}

impl Hset {
    /// Sets the pair; answers with the value it replaced, or the "no value"
    /// sentinel (see `set_answer`). With no pair, nothing is asked of the
    /// store. A failed set leaves the store as it was.
    pub fn execute<S: Storage>(self, store: &mut S) -> (r: CommandResponse)
        ensures
            answered(r@, answer(request(RequestData::Hset(self)), old(store).model()).0),
            old(store).infallible() ==> (r@, final(store).model()) == answer(
                request(RequestData::Hset(self)),
                old(store).model(),
            ),
            (r@, final(store).model()) == answer(request(RequestData::Hset(self)), old(store).model())
                || (is_failure(r@) && final(store).model() == old(store).model()),
            self.pair is None ==> r@ == ok_values(seq![None]) && final(store).model() == old(
                store,
            ).model(),
            final(store).infallible() == old(store).infallible(),
            store_wf(old(store).model()) ==> store_wf(final(store).model()),
    {
        match self.pair {
            Some(p) => {
                proof {
                    if store_wf(old(store).model()) {
                        lemma_set_wf(old(store).model(), self.table@, p.key@, p@.1);
                    }
                }
                let res = store.set(self.table.as_str(), p.key.as_str(), value_or_default(p.value));
                let ghost g = res;
                let r = set_answer(res);
                proof {
                    if let Err(e) = g {
                        assert(r@ == failed(e));
                    }
                }
                r
            },
            None => CommandResponse::from_value(Value::default()),
        }
    }
}

impl Hdel {
    /// Removes the key; answers with its value, or 404 where there was none
    /// (see `lookup_answer`). A failed removal leaves the store as it was.
    pub fn execute<S: Storage>(self, store: &mut S) -> (r: CommandResponse)
        ensures
            answered(r@, answer(request(RequestData::Hdel(self)), old(store).model()).0),
            old(store).infallible() ==> (r@, final(store).model()) == answer(
                request(RequestData::Hdel(self)),
                old(store).model(),
            ),
            (r@, final(store).model()) == answer(request(RequestData::Hdel(self)), old(store).model())
                || (is_failure(r@) && final(store).model() == old(store).model()),
            final(store).infallible() == old(store).infallible(),
            store_wf(old(store).model()) ==> store_wf(final(store).model()),
    {
        proof {
            if store_wf(old(store).model()) {
                lemma_del_wf(old(store).model(), self.table@, self.key@);
            }
        }
        let res = store.del(self.table.as_str(), self.key.as_str());
        let ghost g = res;
        let r = lookup_answer(self.table, self.key, res);
        proof {
            if let Err(e) = g {
                assert(r@ == failed(e));
            }
        }
        r
    }
}

impl Hmset {
    /// Sets each pair in order; answers with the value each one replaced.
    /// The first failed set ends the batch and answers for all of it; the
    /// pairs before it stay set (see `batch_answer`).
    pub fn execute<S: Storage>(self, store: &mut S) -> (r: CommandResponse)
        ensures
            answered(r@, answer(request(RequestData::Hmset(self)), old(store).model()).0),
            old(store).infallible() ==> (r@, final(store).model()) == answer(
                request(RequestData::Hmset(self)),
                old(store).model(),
            ),
            (r@, final(store).model()) == answer(request(RequestData::Hmset(self)), old(store).model())
                || (is_failure(r@) && set_stopped(
                old(store).model(),
                self.table@,
                self.pairs@.map_values(|p: Kvpair| p@),
                final(store).model(),
            )),
            self.pairs@.len() == 0 ==> r@ == ok_values(Seq::empty()) && final(store).model() == old(
                store,
            ).model(),
            final(store).infallible() == old(store).infallible(),
            store_wf(old(store).model()) ==> store_wf(final(store).model()),
    {
        let ghost ps = self.pairs@.map_values(|p: Kvpair| p@);
        let ghost t = self.table@;
        let ghost m = store.model();
        proof {
            lemma_mset_values(m, t, ps);
        }
        let mut rs: Vec<Result<Option<Value>, KvError>> = Vec::new();
        let mut stop = false;
        let mut i: usize = 0;
        while i < self.pairs.len() && !stop
            invariant
                i <= self.pairs@.len(),
                rs@.len() == i,
                ps == self.pairs@.map_values(|p: Kvpair| p@),
                t == self.table@,
                m == old(store).model(),
                mset_values(m, t, ps).len() == ps.len(),
                forall|j: int|
                    0 <= j < ps.len() ==> #[trigger] mset_values(m, t, ps)[j] == got(
                        mset_state(m, t, ps.subrange(0, j)),
                        t,
                        ps[j].0,
                    ),
                store.infallible() == old(store).infallible(),
                stop ==> i > 0 && rs@[i - 1] is Err,
                forall|j: int| 0 <= j < i && (#[trigger] rs@[j]) is Err ==> stop && j == i - 1,
                forall|j: int|
                    0 <= j < i && (#[trigger] rs@[j]) is Ok ==> slot(rs@[j]) == mset_values(m, t, ps)[j],
                !stop ==> store.model() == mset_state(m, t, ps.subrange(0, i as int)),
                stop ==> store.model() == mset_state(m, t, ps.subrange(0, i - 1)),
                store_wf(m) ==> store_wf(store.model()),
                store.infallible() ==> !stop,
            decreases self.pairs@.len() - i,
        {
            let p = &self.pairs[i];
            let v = match &p.value {
                Some(x) => x.duplicate(),
                None => Value::default(),
            };
            assert(ps.subrange(0, i + 1).drop_last() =~= ps.subrange(0, i as int));
            proof {
                if store_wf(store.model()) {
                    lemma_set_wf(store.model(), t, p.key@, v@);
                }
            }
            let res = store.set(self.table.as_str(), p.key.as_str(), v);
            stop = res.is_err();
            rs.push(res);
            i = i + 1;
        }
        let ghost rs0 = rs@;
        let r = batch_answer(rs);
        proof {
            if stop {
                assert(first_error_at(rs0, i - 1));
                assert(r@ == failed(rs0[i - 1]->Err_0));
                assert(store.model() == mset_state(m, t, ps.subrange(0, i - 1)));
            } else {
                assert(all_ok(rs0));
                assert(ps.subrange(0, i as int) =~= ps);
                assert(rs0.map_values(|x: Result<Option<Value>, KvError>| slot(x)) =~= mset_values(m, t, ps));
            }
        }
        r
    }
}

impl Hmdel {
    /// Removes each key in order; answers with each removed value, or the
    /// "no value" sentinel for a missing key. The first failed removal ends
    /// the batch and answers for all of it; the keys before it stay removed
    /// (see `batch_answer`).
    pub fn execute<S: Storage>(self, store: &mut S) -> (r: CommandResponse)
        ensures
            answered(r@, answer(request(RequestData::Hmdel(self)), old(store).model()).0),
            old(store).infallible() ==> (r@, final(store).model()) == answer(
                request(RequestData::Hmdel(self)),
                old(store).model(),
            ),
            (r@, final(store).model()) == answer(request(RequestData::Hmdel(self)), old(store).model())
                || (is_failure(r@) && del_stopped(
                old(store).model(),
                self.table@,
                keys_view(self.keys@),
                final(store).model(),
            )),
            self.keys@.len() == 0 ==> r@ == ok_values(Seq::empty()) && final(store).model() == old(
                store,
            ).model(),
            final(store).infallible() == old(store).infallible(),
            store_wf(old(store).model()) ==> store_wf(final(store).model()),
    {
        let ghost ks = keys_view(self.keys@);
        let ghost t = self.table@;
        let ghost m = store.model();
        proof {
            lemma_mdel_values(m, t, ks);
        }
        let mut rs: Vec<Result<Option<Value>, KvError>> = Vec::new();
        let mut stop = false;
        let mut i: usize = 0;
        while i < self.keys.len() && !stop
            invariant
                i <= self.keys@.len(),
                rs@.len() == i,
                ks == keys_view(self.keys@),
                t == self.table@,
                m == old(store).model(),
                mdel_values(m, t, ks).len() == ks.len(),
                forall|j: int|
                    0 <= j < ks.len() ==> #[trigger] mdel_values(m, t, ks)[j] == got(
                        mdel_state(m, t, ks.subrange(0, j)),
                        t,
                        ks[j],
                    ),
                store.infallible() == old(store).infallible(),
                stop ==> i > 0 && rs@[i - 1] is Err,
                forall|j: int| 0 <= j < i && (#[trigger] rs@[j]) is Err ==> stop && j == i - 1,
                forall|j: int|
                    0 <= j < i && (#[trigger] rs@[j]) is Ok ==> slot(rs@[j]) == mdel_values(m, t, ks)[j],
                !stop ==> store.model() == mdel_state(m, t, ks.subrange(0, i as int)),
                stop ==> store.model() == mdel_state(m, t, ks.subrange(0, i - 1)),
                store_wf(m) ==> store_wf(store.model()),
                store.infallible() ==> !stop,
            decreases self.keys@.len() - i,
        {
            assert(ks.subrange(0, i + 1).drop_last() =~= ks.subrange(0, i as int));
            proof {
                if store_wf(store.model()) {
                    lemma_del_wf(store.model(), t, self.keys@[i as int]@);
                }
            }
            let res = store.del(self.table.as_str(), self.keys[i].as_str());
            stop = res.is_err();
            rs.push(res);
            i = i + 1;
        }
        let ghost rs0 = rs@;
        let r = batch_answer(rs);
        proof {
            if stop {
                assert(first_error_at(rs0, i - 1));
                assert(r@ == failed(rs0[i - 1]->Err_0));
                assert(store.model() == mdel_state(m, t, ks.subrange(0, i - 1)));
            } else {
                assert(all_ok(rs0));
                assert(ks.subrange(0, i as int) =~= ks);
                assert(rs0.map_values(|x: Result<Option<Value>, KvError>| slot(x)) =~= mdel_values(m, t, ks));
            }
        }
        r
    }
}

/// Answers a request against the store. Total: a request with no command is
/// answered with 400, a missing key with 404, a failure of the backend with
/// its error; on a backend that never fails the answer is exactly `answer`.
pub fn dispatch<S: Storage>(cmd: CommandRequest, store: &mut S) -> (r: CommandResponse)
    ensures
        answered(r@, answer(cmd, old(store).model()).0),
        old(store).infallible() ==> (r@, final(store).model()) == answer(cmd, old(store).model()),
        cmd.request_data is None ==> (r@, final(store).model()) == answer(cmd, old(store).model()),
        final(store).infallible() == old(store).infallible(),
        store_wf(old(store).model()) ==> store_wf(final(store).model()),
{
    match cmd.request_data {
        None => {
            let e = KvError::InvalidCommand(String::from_str("request carries no command"));
            proof {
                reveal_strlit("request carries no command");
                reveal_strlit("Invalid command: ");
                reveal_strlit("Invalid command: request carries no command");
            }
            let r = CommandResponse::from_error(e);
            assert(r@.message =~= "Invalid command: request carries no command"@);
            r
        },
        Some(RequestData::Hget(h)) => h.execute(&*store),
        Some(RequestData::Hgetall(h)) => h.execute(&*store),
        Some(RequestData::Hmget(h)) => h.execute(&*store),
        Some(RequestData::Hset(h)) => h.execute(store),
        Some(RequestData::Hmset(h)) => h.execute(store),
        Some(RequestData::Hdel(h)) => h.execute(store),
        Some(RequestData::Hmdel(h)) => h.execute(store),
        Some(RequestData::Hexist(h)) => h.execute(&*store),
        Some(RequestData::Hmexist(h)) => h.execute(&*store),
    }
}

/// A request carrying the command `d`.
pub open spec fn request(d: RequestData) -> CommandRequest {
    CommandRequest { request_data: Some(d) }
}

/// After a key is set, reading it back answers with the value set.
pub proof fn law_get_after_set(m: Tables, h: Hset, g: Hget)
    requires
        h.pair is Some,
        g.table@ == h.table@,
        g.key@ == h.pair.unwrap().key@,
    ensures
        answer(request(RequestData::Hget(g)), answer(request(RequestData::Hset(h)), m).1).0
            == ok_values(seq![h.pair.unwrap()@.1]),
{
    let p = h.pair.unwrap();
    let es = upsert_entries(m, h.table@, p.key@, p@.1);
    lemma_lookup_upsert(m, h.table@, es);
    lemma_lookup_upsert(table_entries(m, h.table@), p.key@, p@.1);
}

spec fn upsert_entries(m: Tables, t: Seq<char>, k: Seq<char>, v: Option<ValueData>) -> crate::storage::Entries {
    crate::storage::upsert(table_entries(m, t), k, v)
}

/// After a key is removed, reading it back answers 404 for that table and
/// key.
pub proof fn law_get_after_del(m: Tables, d: Hdel, g: Hget)
    requires
        store_wf(m),
        g.table@ == d.table@,
        g.key@ == d.key@,
    ensures
        answer(request(RequestData::Hget(g)), answer(request(RequestData::Hdel(d)), m).1).0 == failed(
            KvError::NotFound(g.table, g.key),
        ),
{
    let t = d.table@;
    if lookup(m, t) is Some {
        lemma_table_unique(m, t);
        lemma_remove_unique(table_entries(m, t), d.key@);
        lemma_lookup_upsert(m, t, crate::storage::remove_key(table_entries(m, t), d.key@));
    }
}

/// A key of an empty store does not exist; once set, it does.
pub proof fn law_exists_follows_set(m: Tables, h: Hset, e: Hexist)
    requires
        h.pair is Some,
        e.table@ == h.table@,
        e.key@ == h.pair.unwrap().key@,
    ensures
        answer(request(RequestData::Hexist(e)), Tables::empty()).0 == ok_values(
            seq![Some(ValueData::Flag(false))],
        ),
        answer(request(RequestData::Hexist(e)), answer(request(RequestData::Hset(h)), m).1).0
            == ok_values(seq![Some(ValueData::Flag(true))]),
{
    let p = h.pair.unwrap();
    let es = upsert_entries(m, h.table@, p.key@, p@.1);
    lemma_lookup_upsert(m, h.table@, es);
    lemma_lookup_upsert(table_entries(m, h.table@), p.key@, p@.1);
}

/// A batch read succeeds whatever keys are missing: one slot per key, in
/// the order of the keys, the "no value" sentinel where a key is missing.
pub proof fn law_batch_read_total(m: Tables, h: Hmget)
    ensures
        answer(request(RequestData::Hmget(h)), m).0.status == 200,
        answer(request(RequestData::Hmget(h)), m).0.values.len() == h.keys@.len(),
        forall|i: int|
            0 <= i < h.keys@.len() && store_get(m, h.table@, (#[trigger] h.keys@[i])@) is None
                ==> answer(request(RequestData::Hmget(h)), m).0.values[i] == None::<ValueData>,
{
}

/// After any set on a well-formed store, the table's full listing holds each
/// key once, and the key set holds its latest value.
pub proof fn law_listing_latest(m: Tables, h: Hset, a: Hgetall)
    requires
        store_wf(m),
        h.pair is Some,
        a.table@ == h.table@,
    ensures
        ({
            let m2 = answer(request(RequestData::Hset(h)), m).1;
            let es = table_entries(m2, h.table@);
            &&& answer(request(RequestData::Hgetall(a)), m2).0 == ok_pairs(es)
            &&& keys_unique(es)
            &&& lookup(es, h.pair.unwrap().key@) == Some(h.pair.unwrap()@.1)
        }),
{
    let p = h.pair.unwrap();
    let es = upsert_entries(m, h.table@, p.key@, p@.1);
    lemma_set_wf(m, h.table@, p.key@, p@.1);
    lemma_table_unique(store_set(m, h.table@, p.key@, p@.1), h.table@);
    lemma_lookup_upsert(m, h.table@, es);
    lemma_lookup_upsert(table_entries(m, h.table@), p.key@, p@.1);
}

} // verus!
