//! The per-artifact orchestration: where the output goes, whether an
//! artifact is skipped, what incremental mode must re-process (the pending
//! set), what it recovers from a bundled builtin translation (the base map),
//! and how translated entries are merged back — or discarded wholesale when
//! the run was cancelled, so that no partial output is ever persisted.

use vstd::prelude::*;
use vstd::string::StringExecFns;
use crate::mapping::{
    insert_entries, lemma_insert_entries_contains, lemma_map_of_contains, EntryValue, Mapping,
    ValueModel,
};
use crate::text::{chars_of, contains_chars, contains_seq, replace_chars, replace_spec, string_of};

verus! {

/// The on-disk shapes a mapping artifact comes in.
#[derive(Clone, Copy, PartialEq, Eq, Structural)]
pub enum FileFormat {
    Json,
    Lang,
}

/// What `str::to_lowercase` turns a text into; the result depends on the
/// characters alone.
pub uninterp spec fn lower_of(s: Seq<char>) -> Seq<char>;

/// Relies on `str::to_lowercase`: the lowercase form of the text, named by
/// [`lower_of`].
#[verifier::external_body]
fn to_lowercase_str(s: &str) -> (r: String)
    ensures
        r@ == lower_of(s@),
{
    s.to_lowercase()
}

/// The output artifact's name: when the (case-folded) name mentions the
/// source language tag, both the exact and the case-folded tag are replaced
/// by the target tag; otherwise the case-folded target tag is prefixed.
pub fn get_target_filename(original_name: &str, source_lang: &str, target_lang: &str) -> (r:
    String)
    ensures
        r@ == if contains_seq(lower_of(original_name@), lower_of(source_lang@)) {
            replace_spec(
                replace_spec(original_name@, source_lang@, target_lang@),
                lower_of(source_lang@),
                lower_of(target_lang@),
            )
        } else {
            lower_of(target_lang@) + "_"@ + original_name@
        },
{
    let lower_name = to_lowercase_str(original_name);
    let lower_source = to_lowercase_str(source_lang);
    let lower_target = to_lowercase_str(target_lang);
    let name_chars = chars_of(lower_name.as_str());
    let source_chars = chars_of(lower_source.as_str());
    if contains_chars(&name_chars, &source_chars) {
        let exact = replace_chars(
            &chars_of(original_name),
            &chars_of(source_lang),
            &chars_of(target_lang),
        );
        let folded = replace_chars(&exact, &source_chars, &chars_of(lower_target.as_str()));
        string_of(&folded)
    } else {
        let mut out = lower_target;
        out.append("_");
        out.append(original_name);
        out
    }
}

/// The output name the JSON adapter uses: `en_us` becomes `zh_cn` when the
/// name holds it, else the name is prefixed.
pub fn json_target_name(file_name: &str) -> (r: String)
    ensures
        r@ == if contains_seq(file_name@, "en_us"@) {
            replace_spec(file_name@, "en_us"@, "zh_cn"@)
        } else {
            "zh_cn_"@ + file_name@
        },
{
    let name = chars_of(file_name);
    let pat = chars_of("en_us");
    if contains_chars(&name, &pat) {
        let out = replace_chars(&name, &pat, &chars_of("zh_cn"));
        string_of(&out)
    } else {
        let mut out = String::from_str("zh_cn_");
        out.append(file_name);
        out
    }
}

/// The output name the legacy lang adapter uses: `en_` becomes `zh_` and the
/// region code follows in either case, else the name is prefixed.
pub fn lang_target_name(file_name: &str) -> (r: String)
    ensures
        r@ == if contains_seq(file_name@, "en_"@) {
            replace_spec(
                replace_spec(replace_spec(file_name@, "en_"@, "zh_"@), "US"@, "CN"@),
                "us"@,
                "cn"@,
            )
        } else {
            "zh_CN_"@ + file_name@
        },
{
    let name = chars_of(file_name);
    let pat = chars_of("en_");
    if contains_chars(&name, &pat) {
        let step1 = replace_chars(&name, &pat, &chars_of("zh_"));
        let step2 = replace_chars(&step1, &chars_of("US"), &chars_of("CN"));
        let step3 = replace_chars(&step2, &chars_of("us"), &chars_of("cn"));
        string_of(&step3)
    } else {
        let mut out = String::from_str("zh_CN_");
        out.append(file_name);
        out
    }
}

/// The output artifact's location relative to the output root:
/// `assets/<mod id>/lang/<target name>`.
pub fn output_rel_path(mod_id: &str, target_name: &str) -> (r: String)
    ensures
        r@ == "assets/"@ + mod_id@ + "/lang/"@ + target_name@,
{
    let mut out = String::from_str("assets/");
    out.append(mod_id);
    out.append("/lang/");
    out.append(target_name);
    out
}

/// Where the raw snapshot of a run's pending entries goes, relative to the
/// output root: `raw_content/<mod id>_<original name>`.
pub fn raw_backup_rel_path(mod_id: &str, original_name: &str) -> (r: String)
    ensures
        r@ == "raw_content/"@ + mod_id@ + "_"@ + original_name@,
{
    let mut out = String::from_str("raw_content/");
    out.append(mod_id);
    out.append("_");
    out.append(original_name);
    out
}

/// Full mode skips an artifact whose output already exists, unless the run
/// updates existing outputs or skipping is disabled.
pub fn should_skip_existing(update_existing: bool, skip_existing: bool, output_exists: bool) -> (r:
    bool)
    ensures
        r == (!update_existing && skip_existing && output_exists),
{
    !update_existing && skip_existing && output_exists
}

/// The source entries that still need a remote call: those whose key is
/// neither in the existing output nor in the builtin recovery mapping, in
/// source order.
pub open spec fn pending_after_diff(
    src: Seq<(Seq<char>, ValueModel)>,
    existing: Map<Seq<char>, ValueModel>,
    builtin: Map<Seq<char>, ValueModel>,
) -> Seq<(Seq<char>, ValueModel)>
    decreases src.len(),
{
    if src.len() == 0 {
        Seq::empty()
    } else {
        let rest = pending_after_diff(src.drop_last(), existing, builtin);
        if !existing.contains_key(src.last().0) && !builtin.contains_key(src.last().0) {
            rest.push(src.last())
        } else {
            rest
        }
    }
}

/// The entries recovered from the builtin mapping: source keys absent from
/// the existing output but present in the builtin, with the builtin's
/// values, in source order.
pub open spec fn recovered_after_diff(
    src: Seq<(Seq<char>, ValueModel)>,
    existing: Map<Seq<char>, ValueModel>,
    builtin: Map<Seq<char>, ValueModel>,
) -> Seq<(Seq<char>, ValueModel)>
    decreases src.len(),
{
    if src.len() == 0 {
        Seq::empty()
    } else {
        let rest = recovered_after_diff(src.drop_last(), existing, builtin);
        if !existing.contains_key(src.last().0) && builtin.contains_key(src.last().0) {
            rest.push((src.last().0, builtin[src.last().0]))
        } else {
            rest
        }
    }
}

/// Every pending entry is a source entry whose key misses both maps.
proof fn lemma_pending_diff_member(
    src: Seq<(Seq<char>, ValueModel)>,
    existing: Map<Seq<char>, ValueModel>,
    builtin: Map<Seq<char>, ValueModel>,
    t: int,
)
    requires
        0 <= t < pending_after_diff(src, existing, builtin).len(),
    ensures
        exists|j: int|
            0 <= j < src.len() && #[trigger] src[j] == pending_after_diff(src, existing, builtin)[t]
                && !existing.contains_key(src[j].0) && !builtin.contains_key(src[j].0),
    decreases src.len(),
{
    let pend = pending_after_diff(src, existing, builtin);
    if src.len() > 0 {
        let rest = pending_after_diff(src.drop_last(), existing, builtin);
        if t < rest.len() {
            lemma_pending_diff_member(src.drop_last(), existing, builtin, t);
            let j = choose|j: int|
                0 <= j < src.drop_last().len() && #[trigger] src.drop_last()[j] == rest[t]
                    && !existing.contains_key(src.drop_last()[j].0) && !builtin.contains_key(
                    src.drop_last()[j].0,
                );
            assert(src[j] == pend[t]);
        } else {
            assert(src[src.len() - 1] == pend[t]);
        }
    }
}

/// Every recovered entry carries a source key that misses the existing map
/// and its builtin value.
proof fn lemma_recovered_diff_member(
    src: Seq<(Seq<char>, ValueModel)>,
    existing: Map<Seq<char>, ValueModel>,
    builtin: Map<Seq<char>, ValueModel>,
    t: int,
)
    requires
        0 <= t < recovered_after_diff(src, existing, builtin).len(),
    ensures
        exists|j: int|
            0 <= j < src.len() && #[trigger] src[j].0 == recovered_after_diff(
                src,
                existing,
                builtin,
            )[t].0 && !existing.contains_key(src[j].0) && builtin.contains_key(src[j].0)
                && recovered_after_diff(src, existing, builtin)[t].1 == builtin[src[j].0],
    decreases src.len(),
{
    let rec = recovered_after_diff(src, existing, builtin);
    if src.len() > 0 {
        let rest = recovered_after_diff(src.drop_last(), existing, builtin);
        if t < rest.len() {
            lemma_recovered_diff_member(src.drop_last(), existing, builtin, t);
            let j = choose|j: int|
                0 <= j < src.drop_last().len() && #[trigger] src.drop_last()[j].0 == rest[t].0
                    && !existing.contains_key(src.drop_last()[j].0) && builtin.contains_key(
                    src.drop_last()[j].0,
                ) && rest[t].1 == builtin[src.drop_last()[j].0];
            assert(src[j].0 == rec[t].0);
        } else {
            assert(src[src.len() - 1].0 == rec[t].0);
        }
    }
}

/// What incremental mode resolved for one artifact.
pub struct Resolution {
    /// The entries that must be sent for translation.
    pub pending: Mapping,
    /// The entries already settled: the existing output plus what the
    /// builtin recovery supplied.
    pub base: Mapping,
    /// How many entries the builtin recovery supplied.
    pub recovered: usize,
}

/// Incremental resolution: walks the source entries once; a key
/// already in the existing output is settled, a key found in the builtin
/// recovery is merged into the base without a remote call, and every other
/// key becomes pending. Pending and base never share a key, and together
/// they cover every source key.
pub fn resolve_incremental(src: &Mapping, existing: &Mapping, builtin: &Mapping) -> (r: Resolution)
    requires
        src.wf(),
        existing.wf(),
        builtin.wf(),
    ensures
        r.pending.wf(),
        r.base.wf(),
        r.pending.entries() == pending_after_diff(src.entries(), existing@, builtin@),
        r.base@ == insert_entries(existing@, recovered_after_diff(src.entries(), existing@, builtin@)),
        r.recovered == recovered_after_diff(src.entries(), existing@, builtin@).len(),
        forall|k: Seq<char>| r.pending@.contains_key(k) ==> !r.base@.contains_key(k),
        forall|k: Seq<char>|
            src@.contains_key(k) ==> r.pending@.contains_key(k) || r.base@.contains_key(k),
{
    let mut pending = Mapping::new();
    let mut base = existing.clone();
    let mut recovered: usize = 0;
    let n = src.len();
    let mut i: usize = 0;
    proof {
        assert(src.entries().take(0) =~= Seq::<(Seq<char>, ValueModel)>::empty());
        assert(pending.entries() =~= pending_after_diff(
            src.entries().take(0),
            existing@,
            builtin@,
        ));
        assert(base@ =~= insert_entries(
            existing@,
            recovered_after_diff(src.entries().take(0), existing@, builtin@),
        ));
    }
    while i < n
        invariant
            0 <= i <= n,
            n == src.entries().len(),
            src.wf(),
            existing.wf(),
            builtin.wf(),
            pending.wf(),
            base.wf(),
            pending.entries() == pending_after_diff(src.entries().take(i as int), existing@, builtin@),
            base@ == insert_entries(
                existing@,
                recovered_after_diff(src.entries().take(i as int), existing@, builtin@),
            ),
            recovered == recovered_after_diff(src.entries().take(i as int), existing@, builtin@).len(),
            recovered <= i,
        decreases n - i,
    {
        let ghost prefix = src.entries().take(i as int);
        let ghost ext = src.entries().take(i + 1);
        proof {
            assert(ext.drop_last() =~= prefix);
            assert(ext.last() == src.entries()[i as int]);
        }
        let key = src.key_at(i);
        if existing.contains_key(key.as_str()) {
            // already settled in the existing output
        } else {
            let hit = builtin.get(key.as_str());
            match hit {
                Some(v) => {
                    proof {
                        let rec_pre = recovered_after_diff(prefix, existing@, builtin@);
                        let rec_ext = recovered_after_diff(ext, existing@, builtin@);
                        assert(rec_ext == rec_pre.push((key@, builtin@[key@])));
                        assert(rec_ext.drop_last() =~= rec_pre);
                        assert(rec_ext.last() == (key@, builtin@[key@]));
                    }
                    base.insert(key.clone(), v.clone());
                    recovered = recovered + 1;
                },
                None => {
                    let value = src.value_at(i);
                    proof {
                        let pend = pending_after_diff(prefix, existing@, builtin@);
                        lemma_map_of_contains(pending.entries(), key@);
                        if pending@.contains_key(key@) {
                            let t = choose|t: int|
                                0 <= t < pend.len() && pend[t].0 == key@;
                            lemma_pending_diff_member(prefix, existing@, builtin@, t);
                            let j = choose|j: int|
                                0 <= j < prefix.len() && #[trigger] prefix[j] == pend[t]
                                    && !existing@.contains_key(prefix[j].0)
                                    && !builtin@.contains_key(prefix[j].0);
                            assert(src.entries()[j].0 == key@);
                            assert(src.keys()[j] == key@ && src.keys()[i as int] == key@);
                        }
                    }
                    pending.insert(key.clone(), value.clone());
                },
            }
        }
        i = i + 1;
    }
    proof {
        assert(src.entries().take(n as int) =~= src.entries());
        let pend = pending_after_diff(src.entries(), existing@, builtin@);
        let rec = recovered_after_diff(src.entries(), existing@, builtin@);
        assert forall|k: Seq<char>| pending@.contains_key(k) implies !base@.contains_key(k) by {
            lemma_map_of_contains(pending.entries(), k);
            let t = choose|t: int| 0 <= t < pend.len() && pend[t].0 == k;
            lemma_pending_diff_member(src.entries(), existing@, builtin@, t);
            lemma_insert_entries_contains(existing@, rec, k);
            if exists|j: int| 0 <= j < rec.len() && (#[trigger] rec[j]).0 == k {
                let j = choose|j: int| 0 <= j < rec.len() && (#[trigger] rec[j]).0 == k;
                lemma_recovered_diff_member(src.entries(), existing@, builtin@, j);
            }
        }
        assert forall|k: Seq<char>| src@.contains_key(k) implies pending@.contains_key(k)
            || base@.contains_key(k) by {
            lemma_map_of_contains(src.entries(), k);
            let j = choose|j: int| 0 <= j < src.entries().len() && src.entries()[j].0 == k;
            lemma_insert_entries_contains(existing@, rec, k);
            lemma_map_of_contains(pending.entries(), k);
            if !existing@.contains_key(k) && !builtin@.contains_key(k) {
                lemma_pending_prefix_membership(src.entries(), existing@, builtin@, j);
            } else if !existing@.contains_key(k) && builtin@.contains_key(k) {
                lemma_recovered_prefix_membership(src.entries(), existing@, builtin@, j);
            }
        }
    }
    Resolution { pending, base, recovered }
}

/// A source entry whose key misses both maps appears among the pending
/// entries.
proof fn lemma_pending_prefix_membership(
    src: Seq<(Seq<char>, ValueModel)>,
    existing: Map<Seq<char>, ValueModel>,
    builtin: Map<Seq<char>, ValueModel>,
    j: int,
)
    requires
        0 <= j < src.len(),
        !existing.contains_key(src[j].0),
        !builtin.contains_key(src[j].0),
    ensures
        exists|t: int|
            0 <= t < pending_after_diff(src, existing, builtin).len()
                && (#[trigger] pending_after_diff(src, existing, builtin)[t]).0 == src[j].0,
    decreases src.len(),
{
    let pend = pending_after_diff(src, existing, builtin);
    if j == src.len() - 1 {
        assert(pend[pend.len() - 1].0 == src[j].0);
    } else {
        assert(src.drop_last()[j] == src[j]);
        lemma_pending_prefix_membership(src.drop_last(), existing, builtin, j);
        let rest = pending_after_diff(src.drop_last(), existing, builtin);
        let t = choose|t: int| 0 <= t < rest.len() && (#[trigger] rest[t]).0 == src[j].0;
        assert(pend[t].0 == src[j].0);
    }
}

/// A source entry whose key misses the existing map but hits the builtin
/// appears among the recovered entries.
proof fn lemma_recovered_prefix_membership(
    src: Seq<(Seq<char>, ValueModel)>,
    existing: Map<Seq<char>, ValueModel>,
    builtin: Map<Seq<char>, ValueModel>,
    j: int,
)
    requires
        0 <= j < src.len(),
        !existing.contains_key(src[j].0),
        builtin.contains_key(src[j].0),
    ensures
        exists|t: int|
            0 <= t < recovered_after_diff(src, existing, builtin).len()
                && (#[trigger] recovered_after_diff(src, existing, builtin)[t]).0 == src[j].0,
    decreases src.len(),
{
    let rec = recovered_after_diff(src, existing, builtin);
    if j == src.len() - 1 {
        assert(rec[rec.len() - 1].0 == src[j].0);
    } else {
        assert(src.drop_last()[j] == src[j]);
        lemma_recovered_prefix_membership(src.drop_last(), existing, builtin, j);
        let rest = recovered_after_diff(src.drop_last(), existing, builtin);
        let t = choose|t: int| 0 <= t < rest.len() && (#[trigger] rest[t]).0 == src[j].0;
        assert(rec[t].0 == src[j].0);
    }
}

/// Incremental idempotence: when every source key is already settled in the
/// existing output, nothing is pending and nothing is recovered — a second
/// run over an unchanged source is a no-op and makes no remote call.
pub proof fn lemma_incremental_idempotent(
    src: Seq<(Seq<char>, ValueModel)>,
    existing: Map<Seq<char>, ValueModel>,
    builtin: Map<Seq<char>, ValueModel>,
)
    requires
        forall|j: int| 0 <= j < src.len() ==> existing.contains_key((#[trigger] src[j]).0),
    ensures
        pending_after_diff(src, existing, builtin).len() == 0,
        recovered_after_diff(src, existing, builtin).len() == 0,
    decreases src.len(),
{
    if src.len() > 0 {
        assert(forall|j: int| 0 <= j < src.len() - 1 ==> src.drop_last()[j] == src[j]);
        lemma_incremental_idempotent(src.drop_last(), existing, builtin);
        assert(existing.contains_key(src[src.len() - 1].0));
    }
}

/// After the scheduler returns: a cancelled run discards everything and
/// nothing is persisted; otherwise every translated entry overwrites its key
/// in the base map, which is then the artifact's final content.
pub fn finalize_artifact(base: Mapping, translated: &Mapping, cancelled: bool) -> (r: Option<
    Mapping,
>)
    requires
        base.wf(),
        translated.wf(),
    ensures
        r is None <==> cancelled,
        !cancelled ==> (r matches Some(m) && m.wf() && m@ == insert_entries(
            base@,
            translated.entries(),
        )),
{
    if cancelled {
        return None;
    }
    let mut out = base;
    let n = translated.len();
    let mut i: usize = 0;
    proof {
        assert(translated.entries().take(0) =~= Seq::<(Seq<char>, ValueModel)>::empty());
    }
    while i < n
        invariant
            0 <= i <= n,
            n == translated.entries().len(),
            translated.wf(),
            out.wf(),
            out@ == insert_entries(base@, translated.entries().take(i as int)),
        decreases n - i,
    {
        proof {
            assert(translated.entries().take(i + 1).drop_last() =~= translated.entries().take(
                i as int,
            ));
            assert(translated.entries().take(i + 1).last() == translated.entries()[i as int]);
        }
        let k = translated.key_at(i).clone();
        let v = translated.value_at(i).clone();
        out.insert(k, v);
        i = i + 1;
    }
    proof {
        assert(translated.entries().take(n as int) =~= translated.entries());
    }
    Some(out)
}

} // verus!
