//! The batch scheduler: filters a mapping down to its pending units, cuts
//! them into chunks of a bounded size, gates dispatch on cancellation, and
//! merges per-batch outcomes back into the output mapping under the
//! fail-loud policy (a failed or length-mismatched batch drops its keys).

use vstd::prelude::*;
use crate::mapping::{EntryValue, Mapping, ValueModel};
use crate::text::is_blank;
use crate::text::is_blank_str;

verus! {

/// The chunk size used when the configured one is zero, which would
/// otherwise make no progress.
pub const DEFAULT_CHUNK_SIZE: usize = 20;

pub open spec fn spec_effective_chunk_size(requested: usize) -> usize {
    if requested == 0 {
        DEFAULT_CHUNK_SIZE as usize
    } else {
        requested
    }
}

pub fn effective_chunk_size(requested: usize) -> (r: usize)
    ensures
        r == spec_effective_chunk_size(requested),
        r >= 1,
{
    if requested == 0 {
        DEFAULT_CHUNK_SIZE
    } else {
        requested
    }
}

/// One translation unit: a key and the text to translate under it.
pub struct Unit {
    pub key: String,
    pub text: String,
}

impl View for Unit {
    type V = (Seq<char>, Seq<char>);

    open spec fn view(&self) -> (Seq<char>, Seq<char>) {
        (self.key@, self.text@)
    }
}

impl DeepView for Unit {
    type V = (Seq<char>, Seq<char>);

    open spec fn deep_view(&self) -> (Seq<char>, Seq<char>) {
        self.view()
    }
}

/// An entry is pending when its value is text that is not blank; everything
/// else passes through the scheduler untouched.
pub open spec fn is_pending_entry(e: (Seq<char>, ValueModel)) -> bool {
    e.1 matches ValueModel::Text(t) && !is_blank(t)
}

pub open spec fn text_model(v: ValueModel) -> Seq<char> {
    match v {
        ValueModel::Text(t) => t,
        ValueModel::Opaque(t) => t,
    }
}

/// The pending units of an entry sequence, in entry order.
pub open spec fn pending_of(es: Seq<(Seq<char>, ValueModel)>) -> Seq<(Seq<char>, Seq<char>)>
    decreases es.len(),
{
    if es.len() == 0 {
        Seq::empty()
    } else {
        let rest = pending_of(es.drop_last());
        if is_pending_entry(es.last()) {
            rest.push((es.last().0, text_model(es.last().1)))
        } else {
            rest
        }
    }
}

/// The units of `m` whose value is non-blank text, in entry order.
pub fn pending_units(m: &Mapping) -> (r: Vec<Unit>)
    ensures
        r.deep_view() == pending_of(m.entries()),
{
    let mut r: Vec<Unit> = Vec::new();
    let n = m.len();
    let mut i: usize = 0;
    proof {
        assert(m.entries().take(0) =~= Seq::<(Seq<char>, ValueModel)>::empty());
    }
    while i < n
        invariant
            0 <= i <= n,
            n == m.entries().len(),
            r.deep_view() == pending_of(m.entries().take(i as int)),
        decreases n - i,
    {
        let ghost prefix = m.entries().take(i as int);
        let ghost ext = m.entries().take(i + 1);
        proof {
            assert(ext.drop_last() =~= prefix);
            assert(ext.last() == m.entries()[i as int]);
        }
        let v = m.value_at(i);
        match v {
            EntryValue::Text(s) => {
                if !is_blank_str(s.as_str()) {
                    let u = Unit { key: m.key_at(i).clone(), text: s.clone() };
                    r.push(u);
                    proof {
                        assert(r.deep_view() =~= pending_of(ext));
                    }
                } else {
                    proof {
                        assert(r.deep_view() =~= pending_of(ext));
                    }
                }
            },
            EntryValue::Opaque(_) => {
                proof {
                    assert(r.deep_view() =~= pending_of(ext));
                }
            },
        }
        i = i + 1;
    }
    proof {
        assert(m.entries().take(n as int) =~= m.entries());
    }
    r
}

/// A chunk of pending units dispatched as one remote call: the keys and the
/// source texts at matching positions.
pub struct Batch {
    pub keys: Vec<String>,
    pub texts: Vec<String>,
}

impl Batch {
    pub open spec fn wf(self) -> bool {
        self.keys@.len() == self.texts@.len() && self.keys@.len() >= 1
    }
}

/// Cuts `units` into chunks of `chunk` units, the last one possibly
/// shorter: `ceil(N / chunk)` chunks in all, jointly holding exactly the
/// units, in their original order.
pub fn partition_units(units: &Vec<Unit>, chunk: usize) -> (r: Vec<Batch>)
    requires
        chunk >= 1,
        units@.len() + chunk <= usize::MAX,
    ensures
        r@.len() == (units@.len() + chunk - 1) / chunk as int,
        forall|b: int| 0 <= b < r@.len() ==> (#[trigger] r@[b]).wf(),
        forall|b: int| 0 <= b < r@.len() ==> (#[trigger] r@[b]).keys@.len() == if (b + 1) * chunk
            <= units@.len() {
            chunk as int
        } else {
            units@.len() - b * chunk
        },
        forall|b: int, j: int|
            0 <= b < r@.len() && 0 <= j < r@[b].keys@.len() ==> (#[trigger] r@[b].keys@[j])@
                == units.deep_view()[b * chunk + j].0 && r@[b].texts@[j]@ == units.deep_view()[b
                * chunk + j].1,
    {
    let n = units.len();
    let mut r: Vec<Batch> = Vec::new();
    let mut idx: usize = 0;
    proof {
        assert(r@.len() * chunk == 0) by (nonlinear_arith)
            requires
                r@.len() == 0,
        ;
    }
    while idx < n
        invariant
            chunk >= 1,
            n == units@.len(),
            n + chunk <= usize::MAX,
            idx == r@.len() * chunk || (idx == n && n <= r@.len() * chunk && (r@.len() - 1) * chunk
                < n),
            idx <= n,
            forall|b: int| 0 <= b < r@.len() ==> (#[trigger] r@[b]).wf(),
            forall|b: int| 0 <= b < r@.len() ==> (#[trigger] r@[b]).keys@.len() == if (b + 1)
                * chunk <= n {
                chunk as int
            } else {
                n - b * chunk
            },
            forall|b: int, j: int|
                0 <= b < r@.len() && 0 <= j < r@[b].keys@.len() ==> (#[trigger] r@[b].keys@[j])@
                    == units.deep_view()[b * chunk + j].0 && r@[b].texts@[j]@
                    == units.deep_view()[b * chunk + j].1,
        decreases n - idx,
    {
        let ghost b0 = r@.len();
        proof {
            assert(idx == b0 * chunk);
        }
        let mut keys: Vec<String> = Vec::new();
        let mut texts: Vec<String> = Vec::new();
        let start = idx;
        let mut j: usize = 0;
        while j < chunk && start + j < n
            invariant
                0 <= j <= chunk,
                start + j <= n,
                n == units@.len(),
                n + chunk <= usize::MAX,
                keys@.len() == j,
                texts@.len() == j,
                forall|t: int| 0 <= t < j ==> (#[trigger] keys@[t])@ == units.deep_view()[start
                    + t].0,
                forall|t: int| 0 <= t < j ==> (#[trigger] texts@[t])@ == units.deep_view()[start
                    + t].1,
            decreases chunk - j,
        {
            keys.push(units[start + j].key.clone());
            texts.push(units[start + j].text.clone());
            j = j + 1;
        }
        idx = start + j;
        r.push(Batch { keys, texts });
        proof {
            assert((b0 + 1) * chunk == b0 * chunk + chunk) by (nonlinear_arith);
            assert(r@[b0 as int].keys@.len() == j);
            if idx < n {
                assert(j == chunk);
                assert(idx == r@.len() * chunk);
            } else {
                assert(idx == n);
                assert(n <= r@.len() * chunk);
                assert((r@.len() - 1) * chunk == b0 * chunk < n);
            }
        }
    }
    proof {
        if n == 0 {
            assert(r@.len() == 0) by (nonlinear_arith)
                requires
                    chunk >= 1,
                    r@.len() * chunk == 0 || (0 == n && n <= r@.len() * chunk && (r@.len() - 1)
                        * chunk < n),
                    n == 0,
            ;
            assert((n + chunk - 1) as int / chunk as int == 0) by (nonlinear_arith)
                requires
                    chunk >= 1,
                    n == 0,
            ;
        } else {
            if idx == r@.len() * chunk {
                assert(n <= r@.len() * chunk && (r@.len() - 1) * chunk < n) by (nonlinear_arith)
                    requires
                        chunk >= 1,
                        n >= 1,
                        n == r@.len() * chunk,
                ;
            }
            assert(n <= r@.len() * chunk && (r@.len() - 1) * chunk < n);
            assert(r@.len() == (n + chunk - 1) as int / chunk as int) by (nonlinear_arith)
                requires
                    chunk >= 1,
                    n >= 1,
                    n <= r@.len() * chunk,
                    (r@.len() - 1) * chunk < n,
            ;
        }
    }
    r
}

/// The map after inserting `keys[j] -> Text(texts[j])` for each position, in
/// index order: order is the correlation key between request and response.
pub open spec fn insert_texts(
    m: Map<Seq<char>, ValueModel>,
    keys: Seq<Seq<char>>,
    texts: Seq<Seq<char>>,
) -> Map<Seq<char>, ValueModel>
    decreases keys.len(),
{
    if keys.len() == 0 {
        m
    } else {
        insert_texts(m, keys.drop_last(), texts.drop_last()).insert(
            keys.last(),
            ValueModel::Text(texts.last()),
        )
    }
}

/// The map after removing every key of `keys`.
pub open spec fn remove_keys(
    m: Map<Seq<char>, ValueModel>,
    keys: Seq<Seq<char>>,
) -> Map<Seq<char>, ValueModel>
    decreases keys.len(),
{
    if keys.len() == 0 {
        m
    } else {
        remove_keys(m, keys.drop_last()).remove(keys.last())
    }
}

/// The per-batch merge policy: a successful response of the same length as
/// the request overwrites each key with its translated text; a failed call
/// or a length mismatch removes every key of the batch from the output
/// (fail-loud: such keys mean "needs re-run", not "keep the source text").
pub open spec fn apply_outcome(
    m: Map<Seq<char>, ValueModel>,
    keys: Seq<Seq<char>>,
    outcome: Option<Seq<Seq<char>>>,
) -> Map<Seq<char>, ValueModel> {
    match outcome {
        Some(ts) => if ts.len() == keys.len() {
            insert_texts(m, keys, ts)
        } else {
            remove_keys(m, keys)
        },
        None => remove_keys(m, keys),
    }
}

/// The output map after a whole run: each batch's outcome applied in turn.
/// Batches hold disjoint keys, so the order does not matter.
pub open spec fn apply_outcomes(
    m: Map<Seq<char>, ValueModel>,
    runs: Seq<(Seq<Seq<char>>, Option<Seq<Seq<char>>>)>,
) -> Map<Seq<char>, ValueModel>
    decreases runs.len(),
{
    if runs.len() == 0 {
        m
    } else {
        apply_outcome(apply_outcomes(m, runs.drop_last()), runs.last().0, runs.last().1)
    }
}

/// Merges one batch's outcome into `out` under the fail-loud policy.
pub fn apply_batch_result(out: &mut Mapping, batch: &Batch, result: Option<&Vec<String>>)
    requires
        old(out).wf(),
    ensures
        final(out).wf(),
        final(out)@ == apply_outcome(old(out)@, batch.keys.deep_view(), result.deep_view()),
{
    let ghost keys = batch.keys.deep_view();
    let mut ok: bool = false;
    match result {
        Some(ts) => {
            if ts.len() == batch.keys.len() {
                ok = true;
                let mut j: usize = 0;
                proof {
                    assert(keys.take(0) =~= Seq::<Seq<char>>::empty());
                    assert(ts.deep_view().take(0) =~= Seq::<Seq<char>>::empty());
                }
                while j < batch.keys.len()
                    invariant
                        0 <= j <= batch.keys@.len(),
                        ts.deep_view().len() == batch.keys@.len(),
                        keys == batch.keys.deep_view(),
                        out.wf(),
                        out@ == insert_texts(
                            old(out)@,
                            keys.take(j as int),
                            ts.deep_view().take(j as int),
                        ),
                    decreases batch.keys@.len() - j,
                {
                    out.insert(batch.keys[j].clone(), EntryValue::Text(ts[j].clone()));
                    proof {
                        assert(keys.take(j + 1).drop_last() =~= keys.take(j as int));
                        assert(ts.deep_view().take(j + 1).drop_last() =~= ts.deep_view().take(
                            j as int,
                        ));
                        assert(keys.take(j + 1).last() == keys[j as int]);
                        assert(ts.deep_view().take(j + 1).last() == ts.deep_view()[j as int]);
                    }
                    j = j + 1;
                }
                proof {
                    assert(keys.take(batch.keys@.len() as int) =~= keys);
                    assert(ts.deep_view().take(batch.keys@.len() as int) =~= ts.deep_view());
                }
            }
        },
        None => {},
    }
    if !ok {
        let mut j: usize = 0;
        proof {
            assert(keys.take(0) =~= Seq::<Seq<char>>::empty());
        }
        while j < batch.keys.len()
            invariant
                0 <= j <= batch.keys@.len(),
                keys == batch.keys.deep_view(),
                out.wf(),
                out@ == remove_keys(old(out)@, keys.take(j as int)),
            decreases batch.keys@.len() - j,
        {
            out.remove(batch.keys[j].as_str());
            proof {
                assert(keys.take(j + 1).drop_last() =~= keys.take(j as int));
                assert(keys.take(j + 1).last() == keys[j as int]);
            }
            j = j + 1;
        }
        proof {
            assert(keys.take(batch.keys@.len() as int) =~= keys);
        }
    }
}

pub proof fn lemma_pending_len(es: Seq<(Seq<char>, ValueModel)>)
    ensures
        pending_of(es).len() <= es.len(),
    decreases es.len(),
{
    if es.len() > 0 {
        lemma_pending_len(es.drop_last());
    }
}

/// One scheduling run over one mapping: the planned batches, how many have
/// been dispatched, and the output mapping the outcomes are merged into.
/// Dispatch is gated on cancellation: once the flag is seen no further batch
/// is handed out, but outcomes of batches already dispatched are still
/// merged.
pub struct SchedulerRun {
    output: Mapping,
    batches: Vec<Batch>,
    dispatched: usize,
}

impl SchedulerRun {
    pub closed spec fn output_map(self) -> Map<Seq<char>, ValueModel> {
        self.output@
    }

    /// The planned batches: each one's keys and source texts.
    pub closed spec fn batches_model(self) -> Seq<(Seq<Seq<char>>, Seq<Seq<char>>)> {
        Seq::new(
            self.batches@.len(),
            |i: int| (self.batches@[i].keys.deep_view(), self.batches@[i].texts.deep_view()),
        )
    }

    pub closed spec fn dispatched_count(self) -> int {
        self.dispatched as int
    }

    pub closed spec fn wf(self) -> bool {
        self.output.wf() && self.dispatched <= self.batches@.len() && forall|i: int|
            0 <= i < self.batches@.len() ==> (#[trigger] self.batches@[i]).wf()
    }

    /// Plans a run over `m`: the output starts as a copy of `m`, and the
    /// pending units are cut into batches of the effective chunk size.
    pub fn start(m: &Mapping, chunk_size: usize) -> (r: SchedulerRun)
        requires
            m.wf(),
            m.entries().len() + spec_effective_chunk_size(chunk_size) <= usize::MAX,
        ensures
            r.wf(),
            r.output_map() == m@,
            r.dispatched_count() == 0,
            ({
                let pend = pending_of(m.entries());
                let chunk = spec_effective_chunk_size(chunk_size) as int;
                &&& r.batches_model().len() == (pend.len() + chunk - 1) / chunk
                &&& forall|b: int|
                    0 <= b < r.batches_model().len() ==> (#[trigger] r.batches_model()[b]).0.len()
                        == r.batches_model()[b].1.len()
                &&& forall|b: int|
                    0 <= b < r.batches_model().len() ==> (#[trigger] r.batches_model()[b]).0.len()
                        == if (b + 1) * chunk <= pend.len() {
                        chunk
                    } else {
                        pend.len() - b * chunk
                    }
                &&& forall|b: int, j: int|
                    0 <= b < r.batches_model().len() && 0 <= j < r.batches_model()[b].0.len()
                        ==> (#[trigger] r.batches_model()[b].0[j]) == pend[b * chunk + j].0
                        && r.batches_model()[b].1[j] == pend[b * chunk + j].1
            }),
    {
        let units = pending_units(m);
        proof {
            lemma_pending_len(m.entries());
        }
        let chunk = effective_chunk_size(chunk_size);
        let batches = partition_units(&units, chunk);
        let r = SchedulerRun { output: m.clone(), batches, dispatched: 0 };
        proof {
            let bs = r.batches@;
            assert forall|b: int| 0 <= b < bs.len() implies (#[trigger] r.batches_model()[b]).0
                == bs[b].keys.deep_view() && r.batches_model()[b].1 == bs[b].texts.deep_view()
                && bs[b].keys.deep_view().len() == bs[b].keys@.len() && bs[b].texts.deep_view().len()
                == bs[b].texts@.len() by {}
            assert forall|b: int, j: int|
                0 <= b < bs.len() && 0 <= j < bs[b].keys@.len() implies (#[trigger] bs[b].keys.deep_view()[j])
                == bs[b].keys@[j]@ && bs[b].texts.deep_view()[j] == bs[b].texts@[j]@ by {
                assert(bs[b].wf());
            }
        }
        r
    }

    pub fn batch_count(&self) -> (n: usize)
        ensures
            n == self.batches_model().len(),
    {
        self.batches.len()
    }

    /// The source texts of batch `i`, in request order.
    pub fn batch_texts(&self, i: usize) -> (r: &Vec<String>)
        requires
            i < self.batches_model().len(),
        ensures
            r.deep_view() == self.batches_model()[i as int].1,
    {
        &self.batches[i].texts
    }

    pub fn batch_keys(&self, i: usize) -> (r: &Vec<String>)
        requires
            i < self.batches_model().len(),
        ensures
            r.deep_view() == self.batches_model()[i as int].0,
    {
        &self.batches[i].keys
    }

    /// Hands out the next batch to dispatch, or `None` once all batches are
    /// out or cancellation was signalled; cancellation is checked before the
    /// batch is handed out, never after.
    pub fn next_dispatch(&mut self, cancelled: bool) -> (r: Option<usize>)
        requires
            old(self).wf(),
        ensures
            final(self).wf(),
            final(self).output_map() == old(self).output_map(),
            final(self).batches_model() == old(self).batches_model(),
            (cancelled || old(self).dispatched_count() == old(self).batches_model().len()) ==> (
            r is None && final(self).dispatched_count() == old(self).dispatched_count()),
            (!cancelled && old(self).dispatched_count() < old(self).batches_model().len()) ==> (r
                == Some((old(self).dispatched_count()) as usize) && final(self).dispatched_count()
                == old(self).dispatched_count() + 1),
    {
        if cancelled {
            return None;
        }
        if self.dispatched < self.batches.len() {
            let i = self.dispatched;
            self.dispatched = self.dispatched + 1;
            Some(i)
        } else {
            None
        }
    }

    /// Merges the outcome of batch `i` into the output under the fail-loud
    /// policy. Batches may complete in any order.
    pub fn record_result(&mut self, i: usize, result: Option<&Vec<String>>)
        requires
            old(self).wf(),
            i < old(self).batches_model().len(),
        ensures
            final(self).wf(),
            final(self).batches_model() == old(self).batches_model(),
            final(self).dispatched_count() == old(self).dispatched_count(),
            final(self).output_map() == apply_outcome(
                old(self).output_map(),
                old(self).batches_model()[i as int].0,
                result.deep_view(),
            ),
    {
        apply_batch_result(&mut self.output, &self.batches[i], result);
    }

    /// The final output mapping of the run.
    pub fn finish(self) -> (r: Mapping)
        requires
            self.wf(),
        ensures
            r.wf(),
            r@ == self.output_map(),
    {
        self.output
    }
}

proof fn lemma_seq_contains_split(keys: Seq<Seq<char>>, k: Seq<char>)
    requires
        keys.len() > 0,
    ensures
        keys.contains(k) <==> (keys.drop_last().contains(k) || keys.last() == k),
{
    if keys.contains(k) {
        let i = choose|i: int| 0 <= i < keys.len() && keys[i] == k;
        if i < keys.len() - 1 {
            assert(keys.drop_last()[i] == k);
        }
    }
    if keys.drop_last().contains(k) {
        let i = choose|i: int| 0 <= i < keys.drop_last().len() && keys.drop_last()[i] == k;
        assert(keys[i] == k);
    }
}

/// Which keys `insert_texts` leaves in the map, and what the untouched ones
/// hold.
pub proof fn lemma_insert_texts_contains(
    m: Map<Seq<char>, ValueModel>,
    keys: Seq<Seq<char>>,
    texts: Seq<Seq<char>>,
    k: Seq<char>,
)
    ensures
        insert_texts(m, keys, texts).contains_key(k) <==> (m.contains_key(k) || keys.contains(k)),
        !keys.contains(k) && m.contains_key(k) ==> insert_texts(m, keys, texts)[k] == m[k],
    decreases keys.len(),
{
    if keys.len() > 0 {
        lemma_insert_texts_contains(m, keys.drop_last(), texts.drop_last(), k);
        lemma_seq_contains_split(keys, k);
    }
}

/// Which keys `remove_keys` leaves in the map, and what they hold.
pub proof fn lemma_remove_keys_contains(
    m: Map<Seq<char>, ValueModel>,
    keys: Seq<Seq<char>>,
    k: Seq<char>,
)
    ensures
        remove_keys(m, keys).contains_key(k) <==> (m.contains_key(k) && !keys.contains(k)),
        !keys.contains(k) && m.contains_key(k) ==> remove_keys(m, keys)[k] == m[k],
    decreases keys.len(),
{
    if keys.len() > 0 {
        lemma_remove_keys_contains(m, keys.drop_last(), k);
        lemma_seq_contains_split(keys, k);
    }
}

/// A full successful run keeps exactly the input's keys: when every batch's
/// response came back with the request's length and every batch key is a key
/// of the input, no key is invented and none is lost.
pub proof fn lemma_full_success_preserves_keys(
    m: Map<Seq<char>, ValueModel>,
    runs: Seq<(Seq<Seq<char>>, Option<Seq<Seq<char>>>)>,
)
    requires
        forall|i: int|
            0 <= i < runs.len() ==> ((#[trigger] runs[i]).1 matches Some(ts) && ts.len()
                == runs[i].0.len()),
        forall|i: int, j: int|
            0 <= i < runs.len() && 0 <= j < runs[i].0.len() ==> m.contains_key(
                #[trigger] runs[i].0[j],
            ),
    ensures
        apply_outcomes(m, runs).dom() == m.dom(),
    decreases runs.len(),
{
    if runs.len() > 0 {
        let prev = apply_outcomes(m, runs.drop_last());
        assert(forall|i: int, j: int|
            0 <= i < runs.drop_last().len() && 0 <= j < runs.drop_last()[i].0.len()
                ==> runs.drop_last()[i] == runs[i] && m.contains_key(
                #[trigger] runs.drop_last()[i].0[j],
            ));
        lemma_full_success_preserves_keys(m, runs.drop_last());
        let keys = runs.last().0;
        let ts = runs.last().1->Some_0;
        assert(runs[runs.len() - 1] == runs.last());
        assert(apply_outcomes(m, runs) == insert_texts(prev, keys, ts));
        assert forall|k: Seq<char>|
            insert_texts(prev, keys, ts).contains_key(k) <==> m.contains_key(k) by {
            lemma_insert_texts_contains(prev, keys, ts, k);
            if keys.contains(k) {
                let j = choose|j: int| 0 <= j < keys.len() && keys[j] == k;
                assert(runs[runs.len() - 1].0[j] == k);
                assert(m.contains_key(k));
            }
        }
        assert(apply_outcomes(m, runs).dom() =~= m.dom());
    } else {
        assert(apply_outcomes(m, runs).dom() =~= m.dom());
    }
}

/// The texts of a successful outcome (empty for a failed one).
pub open spec fn outcome_texts(o: Option<Seq<Seq<char>>>) -> Seq<Seq<char>> {
    match o {
        Some(ts) => ts,
        None => Seq::empty(),
    }
}

proof fn lemma_insert_texts_noop(
    m: Map<Seq<char>, ValueModel>,
    keys: Seq<Seq<char>>,
    texts: Seq<Seq<char>>,
)
    requires
        keys.len() == texts.len(),
        forall|j: int|
            0 <= j < keys.len() ==> m.contains_key(#[trigger] keys[j]) && m[keys[j]]
                == ValueModel::Text(texts[j]),
    ensures
        insert_texts(m, keys, texts) == m,
    decreases keys.len(),
{
    if keys.len() > 0 {
        lemma_insert_texts_noop(m, keys.drop_last(), texts.drop_last());
        assert(keys[keys.len() - 1] == keys.last());
        assert(m.insert(keys.last(), ValueModel::Text(texts.last())) =~= m);
    }
}

/// The round trip: a run whose every response returns each batch's source
/// texts unchanged (an identity transform) leaves the mapping equal to the
/// input, pass-through entries included.
pub proof fn lemma_identity_round_trip(
    m: Map<Seq<char>, ValueModel>,
    runs: Seq<(Seq<Seq<char>>, Option<Seq<Seq<char>>>)>,
)
    requires
        forall|i: int|
            0 <= i < runs.len() ==> (#[trigger] runs[i]).1 is Some && outcome_texts(runs[i].1).len()
                == runs[i].0.len(),
        forall|i: int, j: int|
            0 <= i < runs.len() && 0 <= j < runs[i].0.len() ==> m.contains_key(
                #[trigger] runs[i].0[j],
            ) && m[runs[i].0[j]] == ValueModel::Text(outcome_texts(runs[i].1)[j]),
    ensures
        apply_outcomes(m, runs) == m,
    decreases runs.len(),
{
    if runs.len() > 0 {
        assert(forall|i: int|
            0 <= i < runs.drop_last().len() ==> #[trigger] runs.drop_last()[i] == runs[i]);
        lemma_identity_round_trip(m, runs.drop_last());
        let keys = runs.last().0;
        let ts = outcome_texts(runs.last().1);
        assert(runs[runs.len() - 1] == runs.last());
        assert(forall|j: int|
            0 <= j < keys.len() ==> m.contains_key(#[trigger] keys[j]) && m[keys[j]]
                == ValueModel::Text(ts[j]));
        lemma_insert_texts_noop(m, keys, ts);
    }
}

/// Whether a batch outcome counts as a failure for the merge policy: the
/// call failed outright, or the response length does not match the request.
pub open spec fn outcome_failed(keys: Seq<Seq<char>>, o: Option<Seq<Seq<char>>>) -> bool {
    !(o matches Some(ts) && ts.len() == keys.len())
}

proof fn lemma_apply_outcome_other_key(
    m: Map<Seq<char>, ValueModel>,
    keys: Seq<Seq<char>>,
    o: Option<Seq<Seq<char>>>,
    k: Seq<char>,
)
    requires
        !keys.contains(k),
    ensures
        apply_outcome(m, keys, o).contains_key(k) == m.contains_key(k),
{
    match o {
        Some(ts) => {
            if ts.len() == keys.len() {
                lemma_insert_texts_contains(m, keys, ts, k);
            } else {
                lemma_remove_keys_contains(m, keys, k);
            }
        },
        None => {
            lemma_remove_keys_contains(m, keys, k);
        },
    }
}

/// The fail-loud policy: every key of a failed or length-mismatched batch is
/// absent from the final output, as long as no other batch shares a key with
/// it (batches of one run hold disjoint keys).
pub proof fn lemma_failed_batch_keys_dropped(
    m: Map<Seq<char>, ValueModel>,
    runs: Seq<(Seq<Seq<char>>, Option<Seq<Seq<char>>>)>,
    f: int,
)
    requires
        0 <= f < runs.len(),
        outcome_failed(runs[f].0, runs[f].1),
        forall|i: int, k: Seq<char>|
            0 <= i < runs.len() && i != f && #[trigger] runs[i].0.contains(k)
                ==> !runs[f].0.contains(k),
    ensures
        forall|j: int|
            0 <= j < runs[f].0.len() ==> !apply_outcomes(m, runs).contains_key(
                #[trigger] runs[f].0[j],
            ),
    decreases runs.len(),
{
    assert forall|j: int| 0 <= j < runs[f].0.len() implies !apply_outcomes(m, runs).contains_key(
        #[trigger] runs[f].0[j],
    ) by {
        let k = runs[f].0[j];
        assert(runs[f].0.contains(k));
        if f == runs.len() - 1 {
            assert(runs.last() == runs[f]);
            lemma_remove_keys_contains(apply_outcomes(m, runs.drop_last()), runs[f].0, k);
        } else {
            assert(forall|i: int, k2: Seq<char>|
                0 <= i < runs.drop_last().len() && i != f && #[trigger] runs.drop_last()[i].0.contains(
                    k2,
                ) ==> runs.drop_last()[i] == runs[i] && !runs.drop_last()[f].0.contains(k2));
            assert(runs.drop_last()[f] == runs[f]);
            lemma_failed_batch_keys_dropped(m, runs.drop_last(), f);
            let last = runs.last();
            assert(runs[runs.len() - 1] == last);
            assert(!last.0.contains(k)) by {
                if last.0.contains(k) {
                    assert(runs[runs.len() - 1].0.contains(k));
                }
            }
            lemma_apply_outcome_other_key(apply_outcomes(m, runs.drop_last()), last.0, last.1, k);
        }
    }
}

} // verus!
