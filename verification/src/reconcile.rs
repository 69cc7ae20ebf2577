use vstd::hash_map::StringHashMap;
use vstd::prelude::*;
use vstd::string::*;

use crate::combine::{combine2, combine3, res_view, res_views, result_combine, result_combine3};
use crate::object::Component;
use crate::pathname::{eligible, file_key, has_yaml_ext, has_yaml_name, is_yaml, key_of};

verus! {

/// One object-lifecycle notification, as announced to the sink.
pub enum Notice {
    Created(Component),
    Updated(Component, Component),
    Deleted(Component),
}

/// The announcements carried by a stretch of the sink's call record.
pub open spec fn notices_of(log: Seq<(Notice, Result<(), Seq<char>>)>) -> Seq<Notice> {
    log.map_values(|e: (Notice, Result<(), Seq<char>>)| e.0)
}

/// The sink's answers carried by a stretch of its call record.
pub open spec fn results_of(log: Seq<(Notice, Result<(), Seq<char>>)>) -> Seq<
    Result<(), Seq<char>>,
> {
    log.map_values(|e: (Notice, Result<(), Seq<char>>)| e.1)
}

/// The consumer of object-lifecycle notifications. Implementors live outside
/// this library; each call may fail, and a failure never rolls back the index
/// mutation that preceded it.
///
/// The abstract call record `calls` is what the reconciler's contracts speak
/// of: every method appends the announcement it delivered together with the
/// sink's answer. An implementation is believed to maintain this record; the
/// reconciler is verified against it.
pub trait ComponentFileChangeCallback {
    /// Every notification this sink has received so far, oldest first, each
    /// with the answer the sink gave. The default leaves the record empty;
    /// an implementation verified against the method contracts overrides it.
    open spec fn calls(&self) -> Seq<(Notice, Result<(), Seq<char>>)> {
        Seq::empty()
    }

    /// Announces an object that entered the index under a fresh key.
    fn created(&mut self, comp: &Component) -> (r: Result<(), String>)
        ensures
            final(self).calls() == old(self).calls().push((Notice::Created(*comp), res_view(r))),
    ;

    /// Announces that a tracked key's object was replaced.
    fn updated(&mut self, old_comp: &Component, new_comp: &Component) -> (r: Result<(), String>)
        ensures
            final(self).calls() == old(self).calls().push(
                (Notice::Updated(*old_comp, *new_comp), res_view(r)),
            ),
    ;

    /// Announces an object that left the index.
    fn deleted(&mut self, comp: &Component) -> (r: Result<(), String>)
        ensures
            final(self).calls() == old(self).calls().push((Notice::Deleted(*comp), res_view(r))),
    ;
}

/// How one load attempt for a key transforms the index: a successful decode
/// installs the fresh object, a failed one retracts whatever the key held,
/// since its backing file is no longer loadable.
pub open spec fn load_index_step(
    m: Map<Seq<char>, Component>,
    k: Seq<char>,
    outcome: Result<Component, String>,
) -> Map<Seq<char>, Component> {
    match outcome {
        Ok(c) => m.insert(k, c),
        Err(_) => m.remove(k),
    }
}

/// The notifications owed for one load attempt on a key, given what the index
/// held for that key beforehand.
pub open spec fn load_notices(
    m: Map<Seq<char>, Component>,
    k: Seq<char>,
    outcome: Result<Component, String>,
) -> Seq<Notice> {
    match outcome {
        Ok(c) => if m.contains_key(k) {
            seq![Notice::Updated(m[k], c)]
        } else {
            seq![Notice::Created(c)]
        },
        Err(_) => if m.contains_key(k) {
            seq![Notice::Deleted(m[k])]
        } else {
            Seq::empty()
        },
    }
}

/// The overall result owed for one load attempt on a key, given the sink's
/// answers to the notifications of `load_notices`, in order.
pub open spec fn load_result(
    m: Map<Seq<char>, Component>,
    k: Seq<char>,
    outcome: Result<Component, String>,
    sink: Seq<Result<(), Seq<char>>>,
) -> Result<(), Seq<char>> {
    match outcome {
        Ok(_) => sink[0],
        Err(e) => if m.contains_key(k) {
            combine2("deleted"@, sink[0], "load"@, Err(e@))
        } else {
            Err(e@)
        },
    }
}

/// The index after a change event on a path: untouched for an ineligible
/// path, else one load step on the path's key.
pub open spec fn changed_index(
    m: Map<Seq<char>, Component>,
    p: Seq<char>,
    is_file: bool,
    outcome: Result<Component, String>,
) -> Map<Seq<char>, Component> {
    if eligible(p, is_file) {
        load_index_step(m, key_of(p), outcome)
    } else {
        m
    }
}

/// The notifications a change event on a path announces.
pub open spec fn changed_notices(
    m: Map<Seq<char>, Component>,
    p: Seq<char>,
    is_file: bool,
    outcome: Result<Component, String>,
) -> Seq<Notice> {
    if eligible(p, is_file) {
        load_notices(m, key_of(p), outcome)
    } else {
        Seq::empty()
    }
}

/// The overall result of a change event on a path.
pub open spec fn changed_result(
    m: Map<Seq<char>, Component>,
    p: Seq<char>,
    is_file: bool,
    outcome: Result<Component, String>,
    sink: Seq<Result<(), Seq<char>>>,
) -> Result<(), Seq<char>> {
    if eligible(p, is_file) {
        load_result(m, key_of(p), outcome, sink)
    } else {
        Ok(())
    }
}

/// Whether a rename event retracts a tracked object at its source: the old
/// path must carry the recognized name and its key must be tracked. The
/// source of a rename no longer exists on disk, so — like a removed path —
/// it is judged by its base name alone.
pub open spec fn rename_retracts(m: Map<Seq<char>, Component>, po: Seq<char>) -> bool {
    has_yaml_ext(key_of(po)) && m.contains_key(key_of(po))
}

/// The index after the source side of a rename: the old key is dropped when
/// it was tracked.
pub open spec fn renamed_base(m: Map<Seq<char>, Component>, po: Seq<char>) -> Map<
    Seq<char>,
    Component,
> {
    if rename_retracts(m, po) {
        m.remove(key_of(po))
    } else {
        m
    }
}

/// The index after a rename event: the source side retraction, then one load
/// step for the destination when it is eligible.
pub open spec fn renamed_index(
    m: Map<Seq<char>, Component>,
    po: Seq<char>,
    pn: Seq<char>,
    new_is_file: bool,
    outcome: Result<Component, String>,
) -> Map<Seq<char>, Component> {
    let base = renamed_base(m, po);
    if eligible(pn, new_is_file) {
        load_index_step(base, key_of(pn), outcome)
    } else {
        base
    }
}

/// The notifications a rename event announces. An untracked source makes the
/// event indistinguishable from a plain change of the destination; a tracked
/// source folds its retraction into the destination's outcome.
pub open spec fn renamed_notices(
    m: Map<Seq<char>, Component>,
    po: Seq<char>,
    pn: Seq<char>,
    new_is_file: bool,
    outcome: Result<Component, String>,
) -> Seq<Notice> {
    if !rename_retracts(m, po) {
        changed_notices(m, pn, new_is_file, outcome)
    } else {
        let moved = m[key_of(po)];
        let base = renamed_base(m, po);
        let kn = key_of(pn);
        if !eligible(pn, new_is_file) {
            seq![Notice::Deleted(moved)]
        } else {
            match outcome {
                Ok(c) => if base.contains_key(kn) {
                    seq![Notice::Deleted(base[kn]), Notice::Updated(moved, c)]
                } else {
                    seq![Notice::Updated(moved, c)]
                },
                Err(_) => if base.contains_key(kn) {
                    seq![Notice::Deleted(moved), Notice::Deleted(base[kn])]
                } else {
                    seq![Notice::Deleted(moved)]
                },
            }
        }
    }
}

/// The overall result of a rename event, given the sink's answers to the
/// notifications of `renamed_notices`, in order. Every operation is attempted
/// and every failure is preserved in the combined result.
pub open spec fn renamed_result(
    m: Map<Seq<char>, Component>,
    po: Seq<char>,
    pn: Seq<char>,
    new_is_file: bool,
    outcome: Result<Component, String>,
    sink: Seq<Result<(), Seq<char>>>,
) -> Result<(), Seq<char>> {
    if !rename_retracts(m, po) {
        changed_result(m, pn, new_is_file, outcome, sink)
    } else {
        let base = renamed_base(m, po);
        let kn = key_of(pn);
        if !eligible(pn, new_is_file) {
            sink[0]
        } else {
            match outcome {
                Ok(_) => if base.contains_key(kn) {
                    combine2("deleted"@, sink[0], "updated"@, sink[1])
                } else {
                    sink[0]
                },
                Err(e) => if base.contains_key(kn) {
                    combine3("deleted"@, sink[0], "deleted"@, sink[1], "load"@, Err(e@))
                } else {
                    combine2("deleted"@, sink[0], "load"@, Err(e@))
                },
            }
        }
    }
}

/// The index after a rescan pass over a listing of regular files, each with
/// its decode outcome: one change transition per entry, in listing order.
pub open spec fn rescan_index(
    m: Map<Seq<char>, Component>,
    entries: Seq<(String, Result<Component, String>)>,
) -> Map<Seq<char>, Component>
    decreases entries.len(),
{
    if entries.len() == 0 {
        m
    } else {
        rescan_index(changed_index(m, entries[0].0@, true, entries[0].1), entries.drop_first())
    }
}

/// The notifications a rescan pass announces, in listing order.
pub open spec fn rescan_notices(
    m: Map<Seq<char>, Component>,
    entries: Seq<(String, Result<Component, String>)>,
) -> Seq<Notice>
    decreases entries.len(),
{
    if entries.len() == 0 {
        Seq::empty()
    } else {
        changed_notices(m, entries[0].0@, true, entries[0].1) + rescan_notices(
            changed_index(m, entries[0].0@, true, entries[0].1),
            entries.drop_first(),
        )
    }
}

/// The per-entry results a rescan pass owes, in listing order: each entry's
/// change result, computed over that entry's own slice of the sink's
/// answers. `sink` is the whole pass's answer sequence; each entry consumes
/// as many answers as it announced notifications.
pub open spec fn rescan_results(
    m: Map<Seq<char>, Component>,
    entries: Seq<(String, Result<Component, String>)>,
    sink: Seq<Result<(), Seq<char>>>,
) -> Seq<Result<(), Seq<char>>>
    decreases entries.len(),
{
    if entries.len() == 0 {
        Seq::empty()
    } else {
        let n0 = changed_notices(m, entries[0].0@, true, entries[0].1).len() as int;
        seq![changed_result(m, entries[0].0@, true, entries[0].1, sink.subrange(0, n0))]
            + rescan_results(
            changed_index(m, entries[0].0@, true, entries[0].1),
            entries.drop_first(),
            sink.skip(n0),
        )
    }
}

/// One more listing entry extends the rescan folds by one change transition
/// on the index reached so far.
proof fn lemma_rescan_snoc(
    m: Map<Seq<char>, Component>,
    entries: Seq<(String, Result<Component, String>)>,
    e: (String, Result<Component, String>),
)
    ensures
        rescan_index(m, entries.push(e)) == changed_index(
            rescan_index(m, entries),
            e.0@,
            true,
            e.1,
        ),
        rescan_notices(m, entries.push(e)) == rescan_notices(m, entries) + changed_notices(
            rescan_index(m, entries),
            e.0@,
            true,
            e.1,
        ),
    decreases entries.len(),
{
    if entries.len() == 0 {
        let m1 = changed_index(m, e.0@, true, e.1);
        let rest = entries.push(e).drop_first();
        assert(entries.push(e)[0] == e);
        assert(rest =~= Seq::<(String, Result<Component, String>)>::empty());
        assert(rescan_index(m1, rest) == m1);
        assert(rescan_notices(m1, rest) == Seq::<Notice>::empty());
        assert(rescan_notices(m, entries.push(e)) =~= rescan_notices(m, entries) + changed_notices(
            m,
            e.0@,
            true,
            e.1,
        ));
    } else {
        assert(entries.push(e)[0] == entries[0]);
        assert(entries.push(e).drop_first() =~= entries.drop_first().push(e));
        let m1 = changed_index(m, entries[0].0@, true, entries[0].1);
        lemma_rescan_snoc(m1, entries.drop_first(), e);
        assert(rescan_notices(m, entries.push(e)) =~= rescan_notices(m, entries) + changed_notices(
            rescan_index(m, entries),
            e.0@,
            true,
            e.1,
        ));
    }
}

/// One more listing entry, with its own slice of sink answers, extends the
/// owed results by that entry's change result.
proof fn lemma_rescan_results_snoc(
    m: Map<Seq<char>, Component>,
    entries: Seq<(String, Result<Component, String>)>,
    e: (String, Result<Component, String>),
    sink: Seq<Result<(), Seq<char>>>,
    step_sink: Seq<Result<(), Seq<char>>>,
)
    requires
        sink.len() == rescan_notices(m, entries).len(),
        step_sink.len() == changed_notices(rescan_index(m, entries), e.0@, true, e.1).len(),
    ensures
        rescan_results(m, entries.push(e), sink + step_sink) == rescan_results(
            m,
            entries,
            sink,
        ).push(changed_result(rescan_index(m, entries), e.0@, true, e.1, step_sink)),
    decreases entries.len(),
{
    if entries.len() == 0 {
        let m1 = changed_index(m, e.0@, true, e.1);
        let rest = entries.push(e).drop_first();
        assert(entries.push(e)[0] == e);
        assert(rest =~= Seq::<(String, Result<Component, String>)>::empty());
        assert(sink.len() == 0);
        let all_sink = sink + step_sink;
        assert(all_sink =~= step_sink);
        let n0 = changed_notices(m, e.0@, true, e.1).len() as int;
        assert(all_sink.subrange(0, n0) =~= step_sink);
        assert(rescan_results(m1, rest, all_sink.skip(n0)) == Seq::<
            Result<(), Seq<char>>,
        >::empty());
        assert(rescan_results(m, entries, sink) == Seq::<Result<(), Seq<char>>>::empty());
        assert(rescan_results(m, entries.push(e), all_sink) =~= rescan_results(
            m,
            entries,
            sink,
        ).push(changed_result(m, e.0@, true, e.1, step_sink)));
    } else {
        let first = entries[0];
        let n0 = changed_notices(m, first.0@, true, first.1).len() as int;
        let m1 = changed_index(m, first.0@, true, first.1);
        assert(rescan_notices(m, entries) == changed_notices(m, first.0@, true, first.1)
            + rescan_notices(m1, entries.drop_first()));
        assert(n0 <= sink.len());
        let all_sink = sink + step_sink;
        assert(all_sink.subrange(0, n0) =~= sink.subrange(0, n0));
        assert(all_sink.skip(n0) =~= sink.skip(n0) + step_sink);
        assert(entries.push(e)[0] == first);
        assert(entries.push(e).drop_first() =~= entries.drop_first().push(e));
        assert(sink.skip(n0).len() == rescan_notices(m1, entries.drop_first()).len());
        lemma_rescan_results_snoc(m1, entries.drop_first(), e, sink.skip(n0), step_sink);
        assert(rescan_results(m, entries.push(e), all_sink) =~= rescan_results(
            m,
            entries,
            sink,
        ).push(changed_result(rescan_index(m, entries), e.0@, true, e.1, step_sink)));
    }
}

/// A log that grew by one entry splits into its old prefix and that entry.
proof fn lemma_push_tail<A>(log0: Seq<A>, log1: Seq<A>, x: A)
    requires
        log1 == log0.push(x),
    ensures
        log1.len() == log0.len() + 1,
        log1.subrange(0, log0.len() as int) == log0,
        log1.subrange(log0.len() as int, log1.len() as int) == seq![x],
{
    assert(log1.subrange(0, log0.len() as int) =~= log0);
    assert(log1.subrange(log0.len() as int, log1.len() as int) =~= seq![x]);
}

/// A log that grew by two entries splits into its old prefix and the pair.
proof fn lemma_push2_tail<A>(log0: Seq<A>, log1: Seq<A>, x: A, y: A)
    requires
        log1 == log0.push(x).push(y),
    ensures
        log1.len() == log0.len() + 2,
        log1.subrange(0, log0.len() as int) == log0,
        log1.subrange(log0.len() as int, log1.len() as int) == seq![x, y],
{
    assert(log1.subrange(0, log0.len() as int) =~= log0);
    assert(log1.subrange(log0.len() as int, log1.len() as int) =~= seq![x, y]);
}

/// Announcements and answers of a one-entry stretch of the record.
proof fn lemma_log1(x: (Notice, Result<(), Seq<char>>))
    ensures
        notices_of(seq![x]) == seq![x.0],
        results_of(seq![x]) == seq![x.1],
{
    assert(notices_of(seq![x]) =~= seq![x.0]);
    assert(results_of(seq![x]) =~= seq![x.1]);
}

/// Announcements and answers of a two-entry stretch of the record.
proof fn lemma_log2(x: (Notice, Result<(), Seq<char>>), y: (Notice, Result<(), Seq<char>>))
    ensures
        notices_of(seq![x, y]) == seq![x.0, y.0],
        results_of(seq![x, y]) == seq![x.1, y.1],
{
    assert(notices_of(seq![x, y]) =~= seq![x.0, y.0]);
    assert(results_of(seq![x, y]) =~= seq![x.1, y.1]);
}

/// The empty stretch announces nothing.
proof fn lemma_log0(log0: Seq<(Notice, Result<(), Seq<char>>)>)
    ensures
        log0.subrange(0, log0.len() as int) == log0,
        notices_of(log0.subrange(log0.len() as int, log0.len() as int)) == Seq::<Notice>::empty(),
{
    assert(log0.subrange(0, log0.len() as int) =~= log0);
    assert(log0.subrange(log0.len() as int, log0.len() as int) =~= Seq::<
        (Notice, Result<(), Seq<char>>),
    >::empty());
    assert(notices_of(Seq::<(Notice, Result<(), Seq<char>>)>::empty()) =~= Seq::<Notice>::empty());
}

/// The authoritative in-memory picture of one watched directory: for every
/// file key, the most recently and successfully decoded object, together with
/// the sink that lifecycle transitions are announced to. The reconciler is
/// the sole owner and the sole mutator of the index.
pub struct ComponentsDirectory<CB: ComponentFileChangeCallback> {
    input_dir: String,
    loaded_components: StringHashMap<Component>,
    callback: CB,
}

impl<CB: ComponentFileChangeCallback> ComponentsDirectory<CB> {
    /// The index: file key to last successfully loaded object.
    pub closed spec fn index(&self) -> Map<Seq<char>, Component> {
        self.loaded_components@
    }

    /// The sink's call record, as grown by this reconciler.
    pub closed spec fn calls(&self) -> Seq<(Notice, Result<(), Seq<char>>)> {
        self.callback.calls()
    }

    /// The watched directory's path.
    pub closed spec fn dir(&self) -> Seq<char> {
        self.input_dir@
    }

    /// A fresh reconciler over an empty index.
    pub fn new(input_dir: &str, cb: CB) -> (d: Self)
        ensures
            d.index() == Map::<Seq<char>, Component>::empty(),
            d.calls() == cb.calls(),
            d.dir() == input_dir@,
    {
        ComponentsDirectory {
            input_dir: String::from_str(input_dir),
            loaded_components: StringHashMap::new(),
            callback: cb,
        }
    }

    /// The object currently tracked under a file key, if any.
    pub fn get(&self, key: &str) -> (r: Option<&Component>)
        ensures
            match r {
                Some(c) => self.index().contains_key(key@) && *c == self.index()[key@],
                None => !self.index().contains_key(key@),
            },
    {
        self.loaded_components.get(key)
    }

    /// How many file keys are currently tracked.
    pub fn len(&self) -> (n: usize)
        ensures
            n == self.index().len(),
    {
        self.loaded_components.len()
    }

    /// Consumes a create or write event on a path, together with the decode
    /// outcome for that path's content. An ineligible path is a no-op. For an
    /// eligible one the index takes one load step, the owed notification is
    /// announced, and a load failure on a tracked key is folded together with
    /// the retraction's outcome.
    pub fn changed(&mut self, path: &str, is_file: bool, outcome: Result<Component, String>) -> (r:
        Result<(), String>)
        ensures
            final(self).index() == changed_index(old(self).index(), path@, is_file, outcome),
            old(self).calls().len() <= final(self).calls().len(),
            final(self).calls().subrange(0, old(self).calls().len() as int) == old(self).calls(),
            notices_of(
                final(self).calls().subrange(
                    old(self).calls().len() as int,
                    final(self).calls().len() as int,
                ),
            ) == changed_notices(old(self).index(), path@, is_file, outcome),
            res_view(r) == changed_result(
                old(self).index(),
                path@,
                is_file,
                outcome,
                results_of(
                    final(self).calls().subrange(
                        old(self).calls().len() as int,
                        final(self).calls().len() as int,
                    ),
                ),
            ),
    {
        if !is_yaml(path, is_file) {
            proof {
                lemma_log0(self.calls());
            }
            return Ok(());
        }
        let key = file_key(path);
        match outcome {
            Ok(c) => {
                let res = match self.loaded_components.get(key.as_str()) {
                    Some(old_comp) => self.callback.updated(old_comp, &c),
                    None => self.callback.created(&c),
                };
                proof {
                    let x = self.calls().last();
                    lemma_push_tail(old(self).calls(), self.calls(), x);
                    lemma_log1(x);
                }
                self.loaded_components.insert(key, c);
                res
            },
            Err(e) => {
                let first = match self.loaded_components.get(key.as_str()) {
                    Some(old_comp) => Some(self.callback.deleted(old_comp)),
                    None => None,
                };
                match first {
                    Some(r1) => {
                        proof {
                            let x = self.calls().last();
                            lemma_push_tail(old(self).calls(), self.calls(), x);
                            lemma_log1(x);
                        }
                        self.loaded_components.remove(key.as_str());
                        result_combine("deleted", r1, "load", Err(e))
                    },
                    None => {
                        proof {
                            lemma_log0(self.calls());
                        }
                        Err(e)
                    },
                }
            },
        }
    }

    /// Consumes a remove event on a path. The path is gone from disk, so it
    /// is judged by its base name alone; one without the recognized name, or
    /// untracked, is a no-op, and a tracked one has its entry retracted and
    /// announced.
    pub fn removed(&mut self, path: &str) -> (r: Result<(), String>)
        ensures
            !has_yaml_ext(key_of(path@)) || !old(self).index().contains_key(key_of(path@)) ==> {
                &&& final(self).index() == old(self).index()
                &&& final(self).calls() == old(self).calls()
                &&& r == Ok::<(), String>(())
            },
            has_yaml_ext(key_of(path@)) && old(self).index().contains_key(key_of(path@)) ==> {
                &&& final(self).index() == old(self).index().remove(key_of(path@))
                &&& final(self).calls() == old(self).calls().push(
                    (Notice::Deleted(old(self).index()[key_of(path@)]), res_view(r)),
                )
            },
    {
        if !has_yaml_name(path) {
            return Ok(());
        }
        let key = file_key(path);
        let first = match self.loaded_components.get(key.as_str()) {
            Some(old_comp) => Some(self.callback.deleted(old_comp)),
            None => None,
        };
        match first {
            Some(r1) => {
                self.loaded_components.remove(key.as_str());
                r1
            },
            None => Ok(()),
        }
    }

    /// Consumes a rename event, together with the decode outcome for the
    /// destination path's content. The source side's retraction happens
    /// first; a tracked source is then folded with the destination's own
    /// transition, every operation attempted and every failure preserved.
    pub fn renamed(
        &mut self,
        old_path: &str,
        new_path: &str,
        new_is_file: bool,
        outcome: Result<Component, String>,
    ) -> (r: Result<(), String>)
        ensures
            final(self).index() == renamed_index(
                old(self).index(),
                old_path@,
                new_path@,
                new_is_file,
                outcome,
            ),
            old(self).calls().len() <= final(self).calls().len(),
            final(self).calls().subrange(0, old(self).calls().len() as int) == old(self).calls(),
            notices_of(
                final(self).calls().subrange(
                    old(self).calls().len() as int,
                    final(self).calls().len() as int,
                ),
            ) == renamed_notices(old(self).index(), old_path@, new_path@, new_is_file, outcome),
            res_view(r) == renamed_result(
                old(self).index(),
                old_path@,
                new_path@,
                new_is_file,
                outcome,
                results_of(
                    final(self).calls().subrange(
                        old(self).calls().len() as int,
                        final(self).calls().len() as int,
                    ),
                ),
            ),
    {
        let old_key = file_key(old_path);
        let had_old = has_yaml_name(old_path) && self.loaded_components.contains_key(
            old_key.as_str(),
        );
        if !had_old {
            self.changed(new_path, new_is_file, outcome)
        } else {
            if !is_yaml(new_path, new_is_file) {
                let moved = self.loaded_components.get(old_key.as_str()).unwrap();
                let res = self.callback.deleted(moved);
                proof {
                    let x = self.calls().last();
                    lemma_push_tail(old(self).calls(), self.calls(), x);
                    lemma_log1(x);
                }
                self.loaded_components.remove(old_key.as_str());
                res
            } else {
                let new_key = file_key(new_path);
                let same_key: bool = old_key == new_key;
                match outcome {
                    Ok(c) => {
                        let obsolete_present = !same_key && self.loaded_components.contains_key(
                            new_key.as_str(),
                        );
                        let res = if obsolete_present {
                            let obsolete = self.loaded_components.get(new_key.as_str()).unwrap();
                            let r1 = self.callback.deleted(obsolete);
                            let moved = self.loaded_components.get(old_key.as_str()).unwrap();
                            let r2 = self.callback.updated(moved, &c);
                            proof {
                                let y = self.calls().last();
                                let x = self.calls()[self.calls().len() - 2];
                                lemma_push2_tail(old(self).calls(), self.calls(), x, y);
                                lemma_log2(x, y);
                            }
                            result_combine("deleted", r1, "updated", r2)
                        } else {
                            let moved = self.loaded_components.get(old_key.as_str()).unwrap();
                            let r2 = self.callback.updated(moved, &c);
                            proof {
                                let x = self.calls().last();
                                lemma_push_tail(old(self).calls(), self.calls(), x);
                                lemma_log1(x);
                            }
                            r2
                        };
                        self.loaded_components.remove(old_key.as_str());
                        self.loaded_components.insert(new_key, c);
                        res
                    },
                    Err(e) => {
                        let obsolete_present = !same_key && self.loaded_components.contains_key(
                            new_key.as_str(),
                        );
                        let res = if obsolete_present {
                            let moved = self.loaded_components.get(old_key.as_str()).unwrap();
                            let r1 = self.callback.deleted(moved);
                            let obsolete = self.loaded_components.get(new_key.as_str()).unwrap();
                            let r2 = self.callback.deleted(obsolete);
                            proof {
                                let y = self.calls().last();
                                let x = self.calls()[self.calls().len() - 2];
                                lemma_push2_tail(old(self).calls(), self.calls(), x, y);
                                lemma_log2(x, y);
                            }
                            result_combine3("deleted", r1, "deleted", r2, "load", Err(e))
                        } else {
                            let moved = self.loaded_components.get(old_key.as_str()).unwrap();
                            let r1 = self.callback.deleted(moved);
                            proof {
                                let x = self.calls().last();
                                lemma_push_tail(old(self).calls(), self.calls(), x);
                                lemma_log1(x);
                            }
                            result_combine("deleted", r1, "load", Err(e))
                        };
                        self.loaded_components.remove(old_key.as_str());
                        self.loaded_components.remove(new_key.as_str());
                        res
                    },
                }
            }
        }
    }

    /// Consumes a rescan pass: the directory's regular files, each with its
    /// decode outcome, in listing order. Every entry re-executes the change
    /// transition, so a failure for one file never keeps the later ones from
    /// being processed; the per-entry results come back in the same order.
    /// Rescanning never synthesizes retractions for files that vanished
    /// without an explicit remove or rename event.
    pub fn rescan(&mut self, entries: Vec<(String, Result<Component, String>)>) -> (results: Vec<
        Result<(), String>,
    >)
        ensures
            final(self).index() == rescan_index(old(self).index(), entries@),
            old(self).calls().len() <= final(self).calls().len(),
            final(self).calls().subrange(0, old(self).calls().len() as int) == old(self).calls(),
            notices_of(
                final(self).calls().subrange(
                    old(self).calls().len() as int,
                    final(self).calls().len() as int,
                ),
            ) == rescan_notices(old(self).index(), entries@),
            results@.len() == entries@.len(),
            res_views(results@) == rescan_results(
                old(self).index(),
                entries@,
                results_of(
                    final(self).calls().subrange(
                        old(self).calls().len() as int,
                        final(self).calls().len() as int,
                    ),
                ),
            ),
            forall|i: int|
                0 <= i < entries@.len() && !eligible((#[trigger] entries@[i]).0@, true)
                    ==> results@[i] == Ok::<(), String>(()),
    {
        let ghost m0 = self.index();
        let ghost log0 = self.calls();
        let ghost all = entries@;
        let mut remaining = entries;
        let mut results: Vec<Result<(), String>> = Vec::new();
        proof {
            lemma_log0(log0);
            let none = all.subrange(0, 0);
            assert(none =~= Seq::<(String, Result<Component, String>)>::empty());
            assert(rescan_index(m0, none) == m0);
            assert(rescan_notices(m0, none) == Seq::<Notice>::empty());
            assert(rescan_results(m0, none, results_of(log0.subrange(log0.len() as int, log0.len() as int)))
                == Seq::<Result<(), Seq<char>>>::empty());
            assert(res_views(Seq::<Result<(), String>>::empty()) =~= Seq::<
                Result<(), Seq<char>>,
            >::empty());
            assert(notices_of(log0.subrange(log0.len() as int, log0.len() as int)) =~= Seq::<
                Notice,
            >::empty());
        }
        while remaining.len() > 0
            invariant
                results@.len() + remaining@.len() == all.len(),
                remaining@ == all.subrange(results@.len() as int, all.len() as int),
                self.index() == rescan_index(m0, all.subrange(0, results@.len() as int)),
                log0.len() <= self.calls().len(),
                self.calls().subrange(0, log0.len() as int) == log0,
                notices_of(self.calls().subrange(log0.len() as int, self.calls().len() as int))
                    == rescan_notices(m0, all.subrange(0, results@.len() as int)),
                res_views(results@) == rescan_results(
                    m0,
                    all.subrange(0, results@.len() as int),
                    results_of(
                        self.calls().subrange(log0.len() as int, self.calls().len() as int),
                    ),
                ),
                forall|i: int|
                    0 <= i < results@.len() && !eligible((#[trigger] all[i]).0@, true)
                        ==> results@[i] == Ok::<(), String>(()),
            decreases remaining.len(),
        {
            let ghost pre_index = self.index();
            let ghost pre_calls = self.calls();
            let ghost pre_remaining = remaining@;
            let ghost pre_results = results@;
            let ghost done = results@.len() as int;
            let ghost prefix = all.subrange(0, done);
            let (path, outcome) = remaining.remove(0);
            proof {
                assert(pre_remaining[0] == (path, outcome));
                assert(all[done] == (path, outcome));
                assert(remaining@ =~= all.subrange(done + 1, all.len() as int));
            }
            let res = self.changed(path.as_str(), true, outcome);
            results.push(res);
            proof {
                let e = all[done];
                let emitted_pre = pre_calls.subrange(log0.len() as int, pre_calls.len() as int);
                let step = self.calls().subrange(pre_calls.len() as int, self.calls().len() as int);
                let emitted_post = self.calls().subrange(
                    log0.len() as int,
                    self.calls().len() as int,
                );
                assert(self.calls().subrange(0, log0.len() as int) =~= pre_calls.subrange(
                    0,
                    log0.len() as int,
                ));
                assert(emitted_post =~= emitted_pre + step);
                assert(notices_of(emitted_post) =~= notices_of(emitted_pre) + notices_of(step));
                assert(results_of(emitted_post) =~= results_of(emitted_pre) + results_of(step));
                assert(all.subrange(0, done + 1) =~= prefix.push(e));
                lemma_rescan_snoc(m0, prefix, e);
                assert(notices_of(step).len() == step.len());
                assert(results_of(step).len() == step.len());
                assert(notices_of(emitted_pre).len() == emitted_pre.len());
                assert(results_of(emitted_pre).len() == emitted_pre.len());
                lemma_rescan_results_snoc(
                    m0,
                    prefix,
                    e,
                    results_of(emitted_pre),
                    results_of(step),
                );
                assert(res_views(results@) =~= res_views(pre_results).push(res_view(res)));
                if !eligible(path@, true) {
                    assert(res_view(res) == Ok::<(), Seq<char>>(()));
                    if res is Err {
                        assert(res_view(res) is Err);
                    }
                    assert(res is Ok);
                    assert(res->Ok_0 == ());
                    assert(res == Ok::<(), String>(()));
                }
                assert(results@[done] == res);
                assert(forall|i: int| 0 <= i < done ==> results@[i] == pre_results[i]);
            }
        }
        proof {
            assert(all.subrange(0, all.len() as int) =~= all);
        }
        results
    }
}

} // verus!
