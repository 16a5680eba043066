//! The log-structured store: the index of live keys over a write-ahead log
//! that is split into immutable files and one active file.
use vstd::prelude::*;

use crate::codec::{
    be32, encode_frame, frame, frame_payload_len, frames, lemma_be32_roundtrip, lemma_frames_at,
    lemma_frames_len, lemma_parse_frames_exact, lemma_parse_frames_roundtrip,
    lemma_payload_offset_increasing, lemma_payload_offset_prefix, parse_frames, payload_offset,
    scan_frames,
};
use crate::command::{set_key, CommandView, KvCommand};
use crate::error::KvStoreError;
use crate::index::{KeyIndex, Location};
use crate::wal::WAL;

verus! {

/// One record of a log file: the command it holds and the bytes of its
/// payload as written.
pub struct LogEntry {
    pub cmd: CommandView,
    pub payload: Seq<u8>,
}

/// The payloads of a file's records, in order.
pub open spec fn payloads(es: Seq<LogEntry>) -> Seq<Seq<u8>> {
    es.map_values(|e: LogEntry| e.payload)
}

/// The bytes of a log file.
pub open spec fn file_bytes(es: Seq<LogEntry>) -> Seq<u8> {
    frames(payloads(es))
}

/// The contents after one command.
pub open spec fn apply(m: Map<Seq<char>, Seq<char>>, c: CommandView) -> Map<Seq<char>, Seq<char>> {
    match c {
        CommandView::Put(k, v) => m.insert(k, v),
        CommandView::Remove(k) => m.remove(k),
    }
}

/// The contents after the commands of one file, in order.
pub open spec fn replay_file(m: Map<Seq<char>, Seq<char>>, es: Seq<LogEntry>) -> Map<
    Seq<char>,
    Seq<char>,
>
    decreases es.len(),
{
    if es.len() == 0 {
        m
    } else {
        apply(replay_file(m, es.drop_last()), es.last().cmd)
    }
}

/// The contents that a log holds: the commands of all its files, oldest file
/// first, applied to the empty map.
pub open spec fn replay_log(log: Seq<Seq<LogEntry>>) -> Map<Seq<char>, Seq<char>>
    decreases log.len(),
{
    if log.len() == 0 {
        Map::empty()
    } else {
        replay_file(replay_log(log.drop_last()), log.last())
    }
}

/// The record of file `es` whose payload starts at `offset`, if any.
pub open spec fn entry_at(es: Seq<LogEntry>, offset: int) -> Option<LogEntry> {
    if exists|j: int| 0 <= j < es.len() && payload_offset(payloads(es), j) == offset {
        Some(es[choose|j: int| 0 <= j < es.len() && payload_offset(payloads(es), j) == offset])
    } else {
        None
    }
}

/// The file that a location names, when `active` is the number of the
/// active file.
pub open spec fn file_of(loc: Location, active: int) -> int {
    match loc.0 {
        Some(i) => i as int,
        None => active,
    }
}

/// Every key of `contents` is in `idx`, at a location that names a file of
/// `log` and the record there (number `positions[k]`) that puts the key to its
/// value.
pub open spec fn locations_valid(
    idx: Map<Seq<char>, Location>,
    contents: Map<Seq<char>, Seq<char>>,
    positions: Map<Seq<char>, int>,
    log: Seq<Seq<LogEntry>>,
    active: int,
) -> bool {
    forall|k: Seq<char>|
        #![trigger contents.contains_key(k)]
        contents.contains_key(k) ==> {
            let loc = idx[k];
            let f = file_of(loc, active);
            let p = positions[k];
            &&& idx.contains_key(k)
            &&& positions.contains_key(k)
            &&& (loc.0 matches Some(i) ==> i < active)
            &&& 0 <= f < log.len()
            &&& 0 <= p < log[f].len()
            &&& payload_offset(payloads(log[f]), p) == loc.1
            &&& log[f][p].cmd == CommandView::Put(k, contents[k])
        }
}

/// The key that a command concerns.
pub open spec fn cmd_key(c: CommandView) -> Seq<char> {
    match c {
        CommandView::Put(k, _) => k,
        CommandView::Remove(k) => k,
    }
}

/// No record after record `p` of file `f`, in that file or a later one,
/// concerns the key `k`.
pub open spec fn no_later(log: Seq<Seq<LogEntry>>, f: int, p: int, k: Seq<char>) -> bool {
    &&& forall|j: int| p < j < log[f].len() ==> cmd_key(#[trigger] log[f][j].cmd) != k
    &&& forall|g: int, j: int|
        f < g < log.len() && 0 <= j < log[g].len() ==> cmd_key(#[trigger] log[g][j].cmd) != k
}

/// The location of every key names its latest record in the log.
pub open spec fn locations_latest(
    idx: Map<Seq<char>, Location>,
    contents: Map<Seq<char>, Seq<char>>,
    positions: Map<Seq<char>, int>,
    log: Seq<Seq<LogEntry>>,
    active: int,
) -> bool {
    forall|k: Seq<char>|
        #![trigger contents.contains_key(k)]
        contents.contains_key(k) ==> no_later(log, file_of(idx[k], active), positions[k], k)
}

/// The last command of the file `es` that concerns the key `k`.
pub open spec fn last_cmd(es: Seq<LogEntry>, k: Seq<char>) -> Option<CommandView>
    decreases es.len(),
{
    if es.len() == 0 {
        None
    } else if cmd_key(es.last().cmd) == k {
        Some(es.last().cmd)
    } else {
        last_cmd(es.drop_last(), k)
    }
}

/// What replaying a file leaves of a key: what its last command there says,
/// or what it was before when no command there concerns it.
pub proof fn lemma_replay_file_key(m: Map<Seq<char>, Seq<char>>, es: Seq<LogEntry>, k: Seq<char>)
    ensures
        match last_cmd(es, k) {
            None => replay_file(m, es).contains_key(k) == m.contains_key(k) && (m.contains_key(k)
                ==> replay_file(m, es)[k] == m[k]),
            Some(CommandView::Put(_, v)) => replay_file(m, es).contains_key(k) && replay_file(
                m,
                es,
            )[k] == v,
            Some(CommandView::Remove(_)) => !replay_file(m, es).contains_key(k),
        },
    decreases es.len(),
{
    if es.len() > 0 {
        lemma_replay_file_key(m, es.drop_last(), k);
    }
}

/// A file none of whose records concerns `k` has no last command for it.
pub proof fn lemma_last_cmd_none(es: Seq<LogEntry>, k: Seq<char>)
    requires
        forall|j: int| 0 <= j < es.len() ==> cmd_key(#[trigger] es[j].cmd) != k,
    ensures
        last_cmd(es, k) is None,
    decreases es.len(),
{
    if es.len() > 0 {
        assert(es.last() == es[es.len() - 1]);
        let init = es.drop_last();
        assert forall|j: int| 0 <= j < init.len() implies cmd_key(#[trigger] init[j].cmd) != k by {
            assert(init[j] == es[j]);
        }
        lemma_last_cmd_none(init, k);
    }
}

/// The last command for `k` is that of record `p` when it concerns `k` and no
/// later record does.
pub proof fn lemma_last_cmd_at(es: Seq<LogEntry>, k: Seq<char>, p: int)
    requires
        0 <= p < es.len(),
        cmd_key(es[p].cmd) == k,
        forall|j: int| p < j < es.len() ==> cmd_key(#[trigger] es[j].cmd) != k,
    ensures
        last_cmd(es, k) == Some(es[p].cmd),
    decreases es.len(),
{
    if p < es.len() - 1 {
        assert(es.last() == es[es.len() - 1]);
        let init = es.drop_last();
        assert(init[p] == es[p]);
        assert forall|j: int| p < j < init.len() implies cmd_key(#[trigger] init[j].cmd) != k by {
            assert(init[j] == es[j]);
        }
        lemma_last_cmd_at(init, k, p);
    }
}

/// Appending a record about the key `ke` keeps the locations of the other
/// keys the latest.
pub proof fn lemma_push_keeps_latest(
    idx: Map<Seq<char>, Location>,
    contents: Map<Seq<char>, Seq<char>>,
    positions: Map<Seq<char>, int>,
    log: Seq<Seq<LogEntry>>,
    active: int,
    e: LogEntry,
)
    requires
        log.len() > 0,
        locations_valid(idx, contents, positions, log, active),
        locations_latest(idx, contents, positions, log, active),
    ensures
        forall|k: Seq<char>|
            #![trigger contents.contains_key(k)]
            contents.contains_key(k) && k != cmd_key(e.cmd) ==> no_later(
                log.update(log.len() - 1, log.last().push(e)),
                file_of(idx[k], active),
                positions[k],
                k,
            ),
{
    let a = log.len() - 1;
    let log2 = log.update(a, log.last().push(e));
    assert forall|k: Seq<char>|
        #![trigger contents.contains_key(k)]
        contents.contains_key(k) && k != cmd_key(e.cmd) implies no_later(
        log2,
        file_of(idx[k], active),
        positions[k],
        k,
    ) by {
        let f = file_of(idx[k], active);
        let p = positions[k];
        assert forall|j: int| p < j < log2[f].len() implies cmd_key(#[trigger] log2[f][j].cmd)
            != k by {
            if f == a && j == log[a].len() {
                assert(log2[f][j] == e);
            } else {
                assert(log2[f][j] == log[f][j]);
            }
        }
        assert forall|g: int, j: int|
            f < g < log2.len() && 0 <= j < log2[g].len() implies cmd_key(
            #[trigger] log2[g][j].cmd,
        ) != k by {
            if g == a && j == log[a].len() {
                assert(log2[g][j] == e);
            } else {
                assert(log2[g][j] == log[g][j]);
            }
        }
    }
}

/// Every record payload of the log fits the 32-bit length header.
pub open spec fn log_fits(log: Seq<Seq<LogEntry>>) -> bool {
    forall|f: int, j: int|
        0 <= f < log.len() && 0 <= j < log[f].len() ==> #[trigger] log[f][j].payload.len()
            <= u32::MAX
}

/// The store behind the `kvs` engine: the log counters, the index from keys
/// to the location of their latest value, and (as ghost state) the records of
/// every log file, the contents, and the record number of each key's value.
pub struct KvStoreInner {
    wal: WAL,
    map_offset: KeyIndex,
    log: Ghost<Seq<Seq<LogEntry>>>,
    contents: Ghost<Map<Seq<char>, Seq<char>>>,
    positions: Ghost<Map<Seq<char>, int>>,
}

impl View for KvStoreInner {
    type V = Map<Seq<char>, Seq<char>>;

    closed spec fn view(&self) -> Map<Seq<char>, Seq<char>> {
        self.contents@
    }
}

impl KvStoreInner {
    /// The records of the log files: the immutable files in order, then the
    /// active file.
    pub closed spec fn log(&self) -> Seq<Seq<LogEntry>> {
        self.log@
    }

    /// The number of immutable files.
    pub closed spec fn imm_count(&self) -> nat {
        self.wal.imm_count()
    }

    /// The size in bytes of the active file.
    pub closed spec fn wal_size(&self) -> nat {
        self.wal.size()
    }

    /// The index: the location of each key.
    pub closed spec fn index(&self) -> Map<Seq<char>, Location> {
        self.map_offset@
    }

    /// The location that the index holds for `key`.
    pub open spec fn location(&self, key: Seq<char>) -> Location {
        self.index()[key]
    }

    /// Reading the log from its files gives back the contents.
    pub closed spec fn recoverable(&self) -> bool {
        self.contents@ == replay_log(self.log@)
    }

    /// The records of the file that a location names.
    pub open spec fn file_at(&self, loc: Location) -> Seq<LogEntry> {
        self.log()[file_of(loc, self.imm_count() as int)]
    }

    pub closed spec fn wf(&self) -> bool {
        &&& self.map_offset.wf()
        &&& self.log@.len() == self.wal.imm_count() + 1
        &&& self.wal.size() == file_bytes(self.log@.last()).len()
        &&& log_fits(self.log@)
        &&& self.map_offset@.dom() == self.contents@.dom()
        &&& locations_valid(
            self.map_offset@,
            self.contents@,
            self.positions@,
            self.log@,
            self.wal.imm_count() as int,
        )
        &&& locations_latest(
            self.map_offset@,
            self.contents@,
            self.positions@,
            self.log@,
            self.wal.imm_count() as int,
        )
    }

    proof fn lemma_wf_facts(&self)
        requires
            self.wf(),
        ensures
            self.log().len() == self.imm_count() + 1,
            self.wal_size() == file_bytes(self.log().last()).len(),
            log_fits(self.log()),
            forall|k: Seq<char>|
                #![trigger self@.contains_key(k)]
                self@.contains_key(k) ==> {
                    let loc = self.location(k);
                    &&& (loc.0 matches Some(i) ==> i < self.imm_count())
                    &&& entry_at(self.file_at(loc), loc.1 as int) == Some(
                        LogEntry {
                            cmd: CommandView::Put(k, self@[k]),
                            payload: self.file_at(loc)[self.positions@[k]].payload,
                        },
                    )
                },
    {
        assert forall|k: Seq<char>| #![trigger self@.contains_key(k)] self@.contains_key(k) implies {
            let loc = self.location(k);
            &&& (loc.0 matches Some(i) ==> i < self.imm_count())
            &&& entry_at(self.file_at(loc), loc.1 as int) == Some(
                LogEntry {
                    cmd: CommandView::Put(k, self@[k]),
                    payload: self.file_at(loc)[self.positions@[k]].payload,
                },
            )
        } by {
            let loc = self.location(k);
            let es = self.file_at(loc);
            let p = self.positions@[k];
            assert(self.contents@.contains_key(k));
            lemma_entry_at(es, p);
        }
    }

    /// Records that `key` now has `value`: appends a `Put` record with the
    /// given payload to the active file and points the index at it. Returns
    /// the record's bytes, for the caller to write to the end of the active
    /// file.
    pub fn set(&mut self, key: String, value: String, payload: Vec<u8>) -> (framed: Vec<u8>)
        requires
            old(self).wf(),
            payload@.len() <= u32::MAX,
            old(self).wal_size() + 4 + payload@.len() <= usize::MAX,
        ensures
            final(self).wf(),
            final(self)@ == old(self)@.insert(key@, value@),
            framed@ == frame(payload@),
            final(self).log() == old(self).log().update(
                old(self).log().len() - 1,
                old(self).log().last().push(
                    LogEntry { cmd: CommandView::Put(key@, value@), payload: payload@ },
                ),
            ),
            final(self).imm_count() == old(self).imm_count(),
            final(self).wal_size() == old(self).wal_size() + framed@.len(),
            final(self).location(key@).0 is None,
            final(self).location(key@).1 == old(self).wal_size() + 4,
            old(self).recoverable() ==> final(self).recoverable(),
    {
        let offset = self.wal.get_wal_sz() + 4;
        let ghost k = key@;
        let ghost e = LogEntry { cmd: CommandView::Put(key@, value@), payload: payload@ };
        let ghost old_log = self.log@;
        let ghost a = self.log@.len() - 1;
        self.map_offset.insert(key, (None, offset));
        let framed = encode_frame(payload.as_slice());
        self.wal.write(framed.len());
        proof {
            lemma_push_keeps_locations(
                old(self).map_offset@,
                old(self).contents@,
                old(self).positions@,
                old_log,
                a,
                e,
            );
            lemma_replay_push(old_log, e);
            let ps = payloads(old_log.last());
            lemma_frames_len(ps);
            lemma_payload_offset_prefix(ps.push(payload@), ps, ps.len() as int);
            self.log@ = old_log.update(a, old_log.last().push(e));
            self.contents@ = self.contents@.insert(k, value@);
            self.positions@ = self.positions@.insert(k, ps.len() as int);
            assert(frames(ps.push(payload@)) =~= frames(ps) + frame(payload@)) by {
                assert(ps.push(payload@).drop_last() =~= ps);
            }
            assert(self.log@.last() == old_log.last().push(e));
            assert(log_fits(self.log@)) by {
                assert forall|f: int, j: int|
                    0 <= f < self.log@.len() && 0 <= j < self.log@[f].len() implies #[trigger] self.log@[f][j].payload.len()
                        <= u32::MAX by {
                    if f != a || j != ps.len() {
                        assert(old_log[f][j] == self.log@[f][j]);
                    }
                }
            }
            assert(self.map_offset@.dom() =~= self.contents@.dom());
            assert(locations_valid(
                self.map_offset@,
                self.contents@,
                self.positions@,
                self.log@,
                a,
            )) by {
                assert forall|k2: Seq<char>|
                    #![trigger self.contents@.contains_key(k2)]
                    self.contents@.contains_key(k2) implies {
                    let loc = self.map_offset@[k2];
                    let f = file_of(loc, a);
                    let p = self.positions@[k2];
                    &&& self.map_offset@.contains_key(k2)
                    &&& self.positions@.contains_key(k2)
                    &&& (loc.0 matches Some(i) ==> i < a)
                    &&& 0 <= f < self.log@.len()
                    &&& 0 <= p < self.log@[f].len()
                    &&& payload_offset(payloads(self.log@[f]), p) == loc.1
                    &&& self.log@[f][p].cmd == CommandView::Put(k2, self.contents@[k2])
                } by {
                    if k2 != k {
                        assert(old(self).contents@.contains_key(k2));
                    } else {
                        assert(payloads(self.log@[a]) == ps.push(payload@));
                    }
                }
            }
        }
        framed
    }

    /// Records that `key` is gone: when the index holds it, drops it from the
    /// index and appends a `Remove` record with the given payload to the
    /// active file, returning the record's bytes for the caller to write;
    /// otherwise changes nothing and fails with `KeyNotFound`.
    pub fn remove(&mut self, key: &String, payload: Vec<u8>) -> (result: Result<
        Vec<u8>,
        KvStoreError,
    >)
        requires
            old(self).wf(),
            old(self)@.contains_key(key@) ==> payload@.len() <= u32::MAX && old(self).wal_size()
                + 4 + payload@.len() <= usize::MAX,
        ensures
            final(self).wf(),
            match result {
                Ok(framed) => {
                    &&& old(self)@.contains_key(key@)
                    &&& final(self)@ == old(self)@.remove(key@)
                    &&& framed@ == frame(payload@)
                    &&& final(self).log() == old(self).log().update(
                        old(self).log().len() - 1,
                        old(self).log().last().push(
                            LogEntry { cmd: CommandView::Remove(key@), payload: payload@ },
                        ),
                    )
                    &&& final(self).imm_count() == old(self).imm_count()
                    &&& final(self).wal_size() == old(self).wal_size() + framed@.len()
                    &&& (old(self).recoverable() ==> final(self).recoverable())
                },
                Err(e) => {
                    &&& !old(self)@.contains_key(key@)
                    &&& e == KvStoreError::KeyNotFound
                    &&& *final(self) == *old(self)
                },
            },
    {
        if !self.map_offset.contains_key(key) {
            return Err(KvStoreError::KeyNotFound);
        }
        let ghost k = key@;
        let ghost e = LogEntry { cmd: CommandView::Remove(key@), payload: payload@ };
        let ghost old_log = self.log@;
        let ghost a = self.log@.len() - 1;
        self.map_offset.remove(key);
        let framed = encode_frame(payload.as_slice());
        self.wal.write(framed.len());
        proof {
            lemma_push_keeps_locations(
                old(self).map_offset@,
                old(self).contents@,
                old(self).positions@,
                old_log,
                a,
                e,
            );
            lemma_replay_push(old_log, e);
            let ps = payloads(old_log.last());
            self.log@ = old_log.update(a, old_log.last().push(e));
            self.contents@ = self.contents@.remove(k);
            assert(frames(ps.push(payload@)) =~= frames(ps) + frame(payload@)) by {
                assert(ps.push(payload@).drop_last() =~= ps);
            }
            assert(self.log@.last() == old_log.last().push(e));
            assert(log_fits(self.log@)) by {
                assert forall|f: int, j: int|
                    0 <= f < self.log@.len() && 0 <= j < self.log@[f].len() implies #[trigger] self.log@[f][j].payload.len()
                        <= u32::MAX by {
                    if f != a || j != ps.len() {
                        assert(old_log[f][j] == self.log@[f][j]);
                    }
                }
            }
            assert(self.map_offset@.dom() =~= self.contents@.dom());
            assert(locations_valid(
                self.map_offset@,
                self.contents@,
                self.positions@,
                self.log@,
                a,
            )) by {
                assert forall|k2: Seq<char>|
                    #![trigger self.contents@.contains_key(k2)]
                    self.contents@.contains_key(k2) implies {
                    let loc = self.map_offset@[k2];
                    let f = file_of(loc, a);
                    let p = self.positions@[k2];
                    &&& self.map_offset@.contains_key(k2)
                    &&& self.positions@.contains_key(k2)
                    &&& (loc.0 matches Some(i) ==> i < a)
                    &&& 0 <= f < self.log@.len()
                    &&& 0 <= p < self.log@[f].len()
                    &&& payload_offset(payloads(self.log@[f]), p) == loc.1
                    &&& self.log@[f][p].cmd == CommandView::Put(k2, self.contents@[k2])
                } by {
                    assert(old(self).contents@.contains_key(k2));
                }
            }
        }
        Ok(framed)
    }

    /// Where the latest value of `key` is: the file and the offset of the
    /// payload of the record that put it. `None` when the store does not hold
    /// the key.
    pub fn get(&self, key: &String) -> (loc: Option<Location>)
        requires
            self.wf(),
        ensures
            loc is None <==> !self@.contains_key(key@),
            loc matches Some(l) ==> {
                &&& l == self.location(key@)
                &&& l.0 matches Some(i) ==> i < self.imm_count()
                &&& entry_at(self.file_at(l), l.1 as int) matches Some(e)
                &&& e.cmd == CommandView::Put(key@, self@[key@])
            },
    {
        proof {
            self.lemma_wf_facts();
        }
        self.map_offset.get(key)
    }

    /// Whether the active file has grown to the size at which it is frozen
    /// into an immutable file.
    pub fn check_and_do_freeze(&self) -> (due: bool)
        requires
            self.wf(),
        ensures
            due == (self.wal_size() >= FREEZE_THRESHOLD),
    {
        self.wal.get_wal_sz() >= FREEZE_THRESHOLD
    }

    /// The counters of the write-ahead log.
    pub fn wal(&self) -> (wal: &WAL)
        ensures
            wal.size() == self.wal_size(),
            wal.imm_count() == self.imm_count(),
    {
        &self.wal
    }

    /// Freezes the active file: copies, in order, the records of the active
    /// file that hold the latest value of their key into a new immutable file
    /// (whose bytes it returns, for the caller to write), points those keys at
    /// their copies, and empties the active file. `wal_bytes` are the bytes of
    /// the active file and `keys[j]` the key of its record `j` when that
    /// record is a `Put`. The contents stay the same; the log still reads
    /// back to them exactly when no key whose last record in the active file
    /// is a `Remove` is held by the immutable files, since no `Remove` record
    /// is kept.
    pub fn freeze_wal(&mut self, wal_bytes: &[u8], keys: &Vec<Option<String>>) -> (imm_file: Vec<
        u8,
    >)
        requires
            old(self).wf(),
            wal_bytes@ == file_bytes(old(self).log().last()),
            keys@.len() == old(self).log().last().len(),
            forall|j: int|
                0 <= j < keys@.len() ==> match #[trigger] keys@[j] {
                    Some(k) => set_key(old(self).log().last()[j].cmd) == Some(k@),
                    None => set_key(old(self).log().last()[j].cmd) is None,
                },
            old(self).imm_count() < usize::MAX,
        ensures
            final(self).wf(),
            final(self)@ == old(self)@,
            final(self).imm_count() == old(self).imm_count() + 1,
            final(self).wal_size() == 0,
            final(self).log().len() == old(self).log().len() + 1,
            forall|i: int| 0 <= i < old(self).imm_count() ==> final(self).log()[i] == old(self).log()[i],
            final(self).log()[old(self).imm_count() as int] == live_records(
                old(self).log().last(),
                old(self).index(),
            ),
            imm_file@ == file_bytes(final(self).log()[old(self).imm_count() as int]),
            final(self).log().last().len() == 0,
            forall|k: Seq<char>|
                #![trigger old(self)@.contains_key(k)]
                old(self)@.contains_key(k) ==> (if old(self).location(k).0 is None {
                    &&& final(self).location(k).0 == Some(old(self).imm_count() as usize)
                    &&& entry_at(
                        final(self).log()[old(self).imm_count() as int],
                        final(self).location(k).1 as int,
                    ) matches Some(e) && e.cmd == CommandView::Put(k, old(self)@[k])
                } else {
                    final(self).location(k) == old(self).location(k)
                }),
            old(self).recoverable() ==> (final(self).recoverable() <==> no_shadowed_removes(
                old(self).log(),
            )),
    {
        let imm_file_idx = self.wal.get_imm_num();
        let mut imm: Vec<u8> = Vec::new();
        let mut imm_file_size: usize = 0;
        let mut off: usize = 0;
        let mut j: usize = 0;
        let wlen = wal_bytes.len();
        let ghost old_log = self.log@;
        let ghost active = self.log@.last();
        let ghost ps = payloads(active);
        let ghost a = imm_file_idx as int;
        let ghost mut kept: Seq<LogEntry> = Seq::empty();
        proof {
            lemma_frames_len(ps);
            assert(locations_valid(
                self.map_offset@,
                self.contents@,
                self.positions@,
                mid_log(old_log, kept),
                a + 1,
            )) by {
                assert forall|k: Seq<char>|
                    #![trigger self.contents@.contains_key(k)]
                    self.contents@.contains_key(k) implies {
                    let loc = self.map_offset@[k];
                    let f = file_of(loc, a + 1);
                    let p = self.positions@[k];
                    &&& self.map_offset@.contains_key(k)
                    &&& self.positions@.contains_key(k)
                    &&& (loc.0 matches Some(i) ==> i < a + 1)
                    &&& 0 <= f < mid_log(old_log, kept).len()
                    &&& 0 <= p < mid_log(old_log, kept)[f].len()
                    &&& payload_offset(payloads(mid_log(old_log, kept)[f]), p) == loc.1
                    &&& mid_log(old_log, kept)[f][p].cmd == CommandView::Put(k, self.contents@[k])
                } by {
                    let loc = self.map_offset@[k];
                    if loc.0 is None {
                        assert(mid_log(old_log, kept)[a + 1] == old_log[a]);
                    } else {
                        assert(mid_log(old_log, kept)[file_of(loc, a + 1)] == old_log[file_of(
                            loc,
                            a,
                        )]);
                    }
                }
            }
        }
        while j < keys.len()
            invariant
                self.wal == old(self).wal,
                self.log@ == old_log,
                self.contents@ == old(self).contents@,
                self.map_offset.wf(),
                self.map_offset@.dom() == self.contents@.dom(),
                old(self).wf(),
                old_log == old(self).log@,
                a == old(self).wal.imm_count(),
                a + 1 == old_log.len(),
                active == old_log[a],
                ps == payloads(active),
                wal_bytes@ == frames(ps),
                wlen == wal_bytes@.len(),
                keys@.len() == active.len(),
                forall|j: int|
                    0 <= j < keys@.len() ==> match #[trigger] keys@[j] {
                        Some(k) => set_key(active[j].cmd) == Some(k@),
                        None => set_key(active[j].cmd) is None,
                    },
                imm_file_idx == a,
                j <= keys@.len(),
                off == payload_offset(ps, j as int) - 4,
                frames(ps).len() == payload_offset(ps, ps.len() as int) - 4,
                imm@ == frames(payloads(kept)),
                imm_file_size == imm@.len(),
                imm_file_size <= off,
                forall|m: int| 0 <= m < kept.len() ==> #[trigger] kept[m].payload.len() <= u32::MAX,
                locations_valid(
                    self.map_offset@,
                    self.contents@,
                    self.positions@,
                    mid_log(old_log, kept),
                    a + 1,
                ),
                forall|k: Seq<char>|
                    #![trigger self.contents@.contains_key(k)]
                    self.contents@.contains_key(k) ==> (if old(self).map_offset@[k].0 is None {
                        self.map_offset@[k].0 == Some(a as usize) || (self.map_offset@[k].0 is None
                            && self.positions@[k] >= j)
                    } else {
                        self.map_offset@[k] == old(self).map_offset@[k] && self.positions@[k]
                            == old(self).positions@[k]
                    }),
                kept_owned(self.map_offset@, self.contents@, self.positions@, kept, a),
                kept == live_records(active.subrange(0, j as int), old(self).map_offset@),
                forall|k: Seq<char>|
                    #![trigger self.contents@.contains_key(k)]
                    self.contents@.contains_key(k) && old(self).map_offset@[k].0 is None ==> (
                    if self.map_offset@[k].0 is None {
                        self.map_offset@[k] == old(self).map_offset@[k]
                    } else {
                        old(self).positions@[k] < j
                    }),
            decreases keys@.len() - j,
        {
            proof {
                lemma_frames_at(ps, j as int);
                lemma_be32_roundtrip(ps[j as int].len() as u32);
                assert(ps[j as int] == active[j as int].payload);
                assert(active[j as int].payload.len() <= u32::MAX) by {
                    assert(log_fits(old_log));
                    assert(old_log[a][j as int].payload.len() <= u32::MAX);
                }
                if j + 1 <= ps.len() {
                    lemma_payload_offset_increasing_le(ps, j + 1, ps.len() as int);
                }
            }
            let len = frame_payload_len(&wal_bytes[off..off + 4]);
            let payload_off = off + 4;
            let ghost before = self.map_offset@;
            let ghost bpos = self.positions@;
            let ghost bkept = kept;
            proof {
                lemma_frame_owner(before, self.contents@, bpos, old_log, kept, j as int);
            }
            let mut moved = false;
            if let Some(key) = &keys[j] {
                if let Some(loc) = self.map_offset.get(key) {
                    if loc.0.is_none() && loc.1 == payload_off {
                        let ghost kp = payloads(kept);
                        proof {
                            lemma_frames_len(kp);
                        }
                        let new_off = imm_file_size + 4;
                        self.map_offset.insert(key.clone(), (Some(imm_file_idx), new_off));
                        imm.extend_from_slice(&wal_bytes[off..payload_off + len]);
                        imm_file_size = imm_file_size + 4 + len;
                        moved = true;
                        proof {
                            kept = kept.push(active[j as int]);
                            assert(payloads(kept) =~= kp.push(ps[j as int]));
                            lemma_payload_offset_prefix(payloads(kept), kp, kp.len() as int);
                            assert(frames(payloads(kept)) =~= frames(kp) + frame(ps[j as int])) by {
                                assert(payloads(kept).drop_last() =~= kp);
                            }
                            assert(wal_bytes@.subrange(off as int, payload_off + len) =~= frame(
                                ps[j as int],
                            ));
                            self.positions@ = self.positions@.insert(key@, kp.len() as int);
                            lemma_freeze_move(
                                before,
                                self.map_offset@,
                                self.contents@,
                                bpos,
                                self.positions@,
                                old_log,
                                bkept,
                                kept,
                                j as int,
                                key@,
                                (Some(imm_file_idx), new_off),
                            );
                            let oidx = old(self).map_offset@;
                            let op = old(self).positions@[key@];
                            assert(self.contents@.contains_key(key@));
                            assert(oidx[key@] == before[key@]);
                            assert(is_live(active, j as int, oidx));
                            assert(payload_offset(payloads(old_log[a]), op) == oidx[key@].1);
                            if op < j {
                                lemma_payload_offset_increasing(ps, op, j as int);
                            } else if op > j {
                                lemma_payload_offset_increasing(ps, j as int, op);
                            }
                            assert(op == j);
                        }
                    }
                }
            }
            proof {
                let oidx = old(self).map_offset@;
                lemma_live_records_step(active, j as int, oidx);
                if !moved && is_live(active, j as int, oidx) {
                    let k0 = set_key(active[j as int].cmd)->Some_0;
                    assert(keys@[j as int] is Some);
                    assert(self.contents@.contains_key(k0));
                    if before[k0].0 is Some {
                        let op = old(self).positions@[k0];
                        assert(payload_offset(payloads(old_log[a]), op) == oidx[k0].1);
                        lemma_payload_offset_increasing(ps, op, j as int);
                    }
                    assert(false);
                }
                if !moved {
                    assert forall|k: Seq<char>|
                        #![trigger self.contents@.contains_key(k)]
                        self.contents@.contains_key(k) && before[k].0 is None implies bpos[k]
                        != j by {
                        if bpos[k] == j {
                            assert(set_key(active[j as int].cmd) == Some(k));
                        }
                    }
                }
            }
            off = payload_off + len;
            j = j + 1;
        }
        proof {
            assert(active.subrange(0, j as int) =~= active);
            lemma_freeze_final(
                self.map_offset@,
                self.contents@,
                self.positions@,
                old(self).map_offset@,
                old(self).positions@,
                old_log,
                kept,
            );
        }
        self.wal.incr_next_wal();
        proof {
            self.log@ = old_log.drop_last().push(kept).push(Seq::empty());
            assert(frames(payloads(Seq::<LogEntry>::empty())) =~= Seq::<u8>::empty());
            assert(log_fits(self.log@)) by {
                assert forall|f: int, m: int|
                    0 <= f < self.log@.len() && 0 <= m < self.log@[f].len() implies #[trigger] self.log@[f][m].payload.len()
                        <= u32::MAX by {
                    if f < a {
                        assert(self.log@[f] == old_log[f]);
                        assert(old_log[f][m].payload.len() <= u32::MAX);
                    } else {
                        assert(self.log@[f] == kept);
                    }
                }
            }
            assert(self.log@[a] == kept);
            self.lemma_wf_facts();
        }
        imm
    }

    /// Rebuilds the store from its log files: `files` holds the bytes of the
    /// immutable files in order and then of the active file, and
    /// `commands[f]` the commands decoded from the records of file `f`. Each
    /// `Put` points its key at its record, each `Remove` drops its key, file
    /// by file and record by record. Fails with `CorruptLog` when a file does
    /// not split into whole records or the commands do not match them.
    pub fn open(files: &Vec<Vec<u8>>, commands: &Vec<Vec<KvCommand>>) -> (result: Result<
        KvStoreInner,
        KvStoreError,
    >)
        ensures
            match result {
                Ok(store) => {
                    let fs = files@.map_values(|v: Vec<u8>| v@);
                    let cs = commands_view(commands@);
                    &&& log_files_valid(fs, cs)
                    &&& store.wf()
                    &&& store.recoverable()
                    &&& store.log() == log_of(fs, cs)
                    &&& store@ == replay_log(log_of(fs, cs))
                    &&& store.imm_count() == files@.len() - 1
                    &&& store.wal_size() == files@.last()@.len()
                    &&& forall|f: int| 0 <= f < files@.len() ==> #[trigger] file_bytes(store.log()[f]) == files@[f]@
                },
                Err(e) => {
                    &&& !log_files_valid(
                        files@.map_values(|v: Vec<u8>| v@),
                        commands_view(commands@),
                    )
                    &&& e == KvStoreError::CorruptLog
                },
            },
    {
        let ghost fs = files@.map_values(|v: Vec<u8>| v@);
        let ghost cs = commands_view(commands@);
        let n = files.len();
        if n == 0 || commands.len() != n {
            return Err(KvStoreError::CorruptLog);
        }
        let mut scans: Vec<Vec<(usize, usize)>> = Vec::new();
        let mut f: usize = 0;
        while f < n
            invariant
                n == files@.len(),
                n == commands@.len(),
                fs == files@.map_values(|v: Vec<u8>| v@),
                cs == commands_view(commands@),
                f <= n,
                scans@.len() == f,
                forall|g: int|
                    0 <= g < f ==> #[trigger] parse_frames(fs[g]) is Some && parse_frames(
                        fs[g],
                    ).unwrap().len() == cs[g].len() && scans@[g]@.len() == cs[g].len() && forall|
                        j: int,
                    |
                        0 <= j < cs[g].len() ==> (#[trigger] scans@[g]@[j]).0 == payload_offset(
                            parse_frames(fs[g]).unwrap(),
                            j,
                        ),
            decreases n - f,
        {
            proof {
                assert(fs[f as int] == files@[f as int]@);
                assert(cs[f as int].len() == commands@[f as int]@.len());
            }
            match scan_frames(files[f].as_slice()) {
                None => {
                    assert(!(parse_frames(fs[f as int]) is Some));
                    return Err(KvStoreError::CorruptLog);
                },
                Some(v) => {
                    if v.len() != commands[f].len() {
                        assert(parse_frames(fs[f as int]).unwrap().len() != cs[f as int].len());
                        return Err(KvStoreError::CorruptLog);
                    }
                    scans.push(v);
                },
            }
            f = f + 1;
        }
        assert(log_files_valid(fs, cs));
        let ghost full = log_of(fs, cs);
        let mut index = KeyIndex::new();
        let ghost mut log: Seq<Seq<LogEntry>> = Seq::empty();
        let ghost mut contents: Map<Seq<char>, Seq<char>> = Map::empty();
        let ghost mut positions: Map<Seq<char>, int> = Map::empty();
        let mut f: usize = 0;
        while f < n
            invariant
                n == files@.len(),
                n == commands@.len(),
                n >= 1,
                fs == files@.map_values(|v: Vec<u8>| v@),
                cs == commands_view(commands@),
                log_files_valid(fs, cs),
                full == log_of(fs, cs),
                scans@.len() == n,
                forall|g: int|
                    0 <= g < n ==> #[trigger] scans@[g]@.len() == cs[g].len() && forall|j: int|
                        0 <= j < cs[g].len() ==> (#[trigger] scans@[g]@[j]).0 == payload_offset(
                            parse_frames(fs[g]).unwrap(),
                            j,
                        ),
                f <= n,
                log == full.take(f as int),
                contents == replay_log(log),
                index.wf(),
                index@.dom() == contents.dom(),
                locations_valid(
                    index@,
                    contents,
                    positions,
                    log,
                    if f == n {
                        n - 1
                    } else {
                        f as int
                    },
                ),
                locations_latest(
                    index@,
                    contents,
                    positions,
                    log,
                    if f == n {
                        n - 1
                    } else {
                        f as int
                    },
                ),
            decreases n - f,
        {
            let idx: Option<usize> = if f == n - 1 {
                None
            } else {
                Some(f)
            };
            let ghost act: int = if f == n - 1 {
                f as int
            } else {
                f + 1
            };
            let ghost ps = parse_frames(fs[f as int]).unwrap();
            proof {
                assert(log.push(Seq::<LogEntry>::empty()).drop_last() =~= log);
                log = log.push(Seq::empty());
                assert(full[f as int].take(0) =~= Seq::<LogEntry>::empty());
                assert(locations_valid(index@, contents, positions, log, act)) by {
                    assert forall|k: Seq<char>|
                        #![trigger contents.contains_key(k)]
                        contents.contains_key(k) implies {
                        let loc = index@[k];
                        let g = file_of(loc, act);
                        let p = positions[k];
                        &&& index@.contains_key(k)
                        &&& positions.contains_key(k)
                        &&& (loc.0 matches Some(i) ==> i < act)
                        &&& 0 <= g < log.len()
                        &&& 0 <= p < log[g].len()
                        &&& payload_offset(payloads(log[g]), p) == loc.1
                        &&& log[g][p].cmd == CommandView::Put(k, contents[k])
                    } by {
                        assert(index@[k].0 is Some);
                        assert(log[file_of(index@[k], act)] == log.drop_last()[file_of(
                            index@[k],
                            f as int,
                        )]);
                    }
                }
                assert(locations_latest(index@, contents, positions, log, act)) by {
                    let prev = log.drop_last();
                    assert forall|k: Seq<char>|
                        #![trigger contents.contains_key(k)]
                        contents.contains_key(k) implies no_later(
                        log,
                        file_of(index@[k], act),
                        positions[k],
                        k,
                    ) by {
                        assert(index@[k].0 is Some);
                        let g0 = file_of(index@[k], act);
                        assert(g0 == file_of(index@[k], f as int));
                        assert(no_later(prev, g0, positions[k], k));
                        assert forall|j: int| positions[k] < j < log[g0].len() implies cmd_key(
                            #[trigger] log[g0][j].cmd,
                        ) != k by {
                            assert(log[g0] == prev[g0]);
                        }
                        assert forall|g: int, j: int|
                            g0 < g < log.len() && 0 <= j < log[g].len() implies cmd_key(
                            #[trigger] log[g][j].cmd,
                        ) != k by {
                            assert(log[g] == prev[g]);
                        }
                    }
                }
            }
            let cmds = &commands[f];
            let scan = &scans[f];
            let mut j: usize = 0;
            while j < cmds.len()
                invariant
                    n == files@.len(),
                    n == commands@.len(),
                    fs == files@.map_values(|v: Vec<u8>| v@),
                    cs == commands_view(commands@),
                    log_files_valid(fs, cs),
                    full == log_of(fs, cs),
                    f < n,
                    cmds == commands@[f as int],
                    scan@.len() == cs[f as int].len(),
                    forall|j: int|
                        0 <= j < cs[f as int].len() ==> (#[trigger] scan@[j]).0 == payload_offset(
                            ps,
                            j,
                        ),
                    ps == parse_frames(fs[f as int]).unwrap(),
                    idx == (if f == n - 1 {
                        None
                    } else {
                        Some(f)
                    }),
                    act == (if f == n - 1 {
                        f as int
                    } else {
                        f + 1
                    }),
                    j <= cmds@.len(),
                    log == full.take(f as int).push(full[f as int].take(j as int)),
                    contents == replay_log(log),
                    index.wf(),
                    index@.dom() == contents.dom(),
                    locations_valid(index@, contents, positions, log, act),
                    locations_latest(index@, contents, positions, log, act),
                decreases cmds@.len() - j,
            {
                let off = scan[j].0;
                let ghost e = full[f as int][j as int];
                proof {
                    assert(cs[f as int][j as int] == cmds@[j as int]@);
                    assert(e.cmd == cmds@[j as int]@);
                    lemma_push_keeps_locations(index@, contents, positions, log, act, e);
                    lemma_push_keeps_latest(index@, contents, positions, log, act, e);
                    lemma_replay_push(log, e);
                    assert(full[f as int].take(j + 1) =~= full[f as int].take(j as int).push(e));
                    assert(payloads(full[f as int].take(j + 1)) =~= ps.take(j + 1));
                    lemma_payload_offset_prefix(ps.take(j + 1), ps, j as int);
                    assert(payloads(log.update(log.len() - 1, log.last().push(e))[f as int])
                        == ps.take(j + 1));
                }
                let ghost before_idx = index@;
                let ghost before_pos = positions;
                let ghost before_contents = contents;
                match &cmds[j] {
                    KvCommand::Put(k, v) => {
                        index.insert(k.clone(), (idx, off));
                        proof {
                            contents = contents.insert(k@, v@);
                            positions = positions.insert(k@, j as int);
                        }
                    },
                    KvCommand::Remove(k) => {
                        index.remove(k);
                        proof {
                            contents = contents.remove(k@);
                        }
                    },
                }
                proof {
                    let log2 = log.update(log.len() - 1, log.last().push(e));
                    assert(log2 =~= full.take(f as int).push(full[f as int].take(j + 1)));
                    assert(index@.dom() =~= contents.dom());
                    assert(locations_valid(index@, contents, positions, log2, act)) by {
                        assert forall|k2: Seq<char>|
                            #![trigger contents.contains_key(k2)]
                            contents.contains_key(k2) implies {
                            let loc = index@[k2];
                            let g = file_of(loc, act);
                            let p = positions[k2];
                            &&& index@.contains_key(k2)
                            &&& positions.contains_key(k2)
                            &&& (loc.0 matches Some(i) ==> i < act)
                            &&& 0 <= g < log2.len()
                            &&& 0 <= p < log2[g].len()
                            &&& payload_offset(payloads(log2[g]), p) == loc.1
                            &&& log2[g][p].cmd == CommandView::Put(k2, contents[k2])
                        } by {
                            if set_key(e.cmd) == Some(k2) {
                                assert(log2[f as int][j as int] == e);
                            } else {
                                assert(before_contents.contains_key(k2));
                                assert(index@[k2] == before_idx[k2]);
                                assert(positions[k2] == before_pos[k2]);
                            }
                        }
                    }
                    assert(locations_latest(index@, contents, positions, log2, act)) by {
                        assert forall|k2: Seq<char>|
                            #![trigger contents.contains_key(k2)]
                            contents.contains_key(k2) implies no_later(
                            log2,
                            file_of(index@[k2], act),
                            positions[k2],
                            k2,
                        ) by {
                            if set_key(e.cmd) == Some(k2) {
                                assert(file_of(index@[k2], act) == f);
                                assert(positions[k2] == j);
                                assert(log2.len() == f + 1);
                                assert(log2[f as int].len() == j + 1);
                            } else {
                                assert(before_contents.contains_key(k2));
                                assert(index@[k2] == before_idx[k2]);
                                assert(positions[k2] == before_pos[k2]);
                                assert(k2 != cmd_key(e.cmd));
                            }
                        }
                    }
                    log = log2;
                }
                j = j + 1;
            }
            proof {
                assert(full[f as int].take(cmds@.len() as int) =~= full[f as int]);
                assert(full.take(f as int).push(full[f as int]) =~= full.take(f + 1));
            }
            f = f + 1;
        }
        proof {
            assert(full.take(n as int) =~= full);
            assert forall|g: int| 0 <= g < n implies #[trigger] file_bytes(full[g]) == fs[g] by {
                let ps = parse_frames(fs[g]).unwrap();
                lemma_parse_frames_exact(fs[g]);
                assert(payloads(full[g]) =~= ps);
            }
            assert(log_fits(full)) by {
                assert forall|g: int, m: int|
                    0 <= g < full.len() && 0 <= m < full[g].len() implies #[trigger] full[g][m].payload.len()
                        <= u32::MAX by {
                    lemma_parse_frames_exact(fs[g]);
                    assert(full[g][m].payload == parse_frames(fs[g]).unwrap()[m]);
                }
            }
            assert(full.last() == full[n - 1]);
        }
        let wal = WAL::open(files[n - 1].len(), n);
        Ok(KvStoreInner {
            wal,
            map_offset: index,
            log: Ghost(log),
            contents: Ghost(contents),
            positions: Ghost(positions),
        })
    }
}

/// The size in bytes at which the active file is frozen.
pub const FREEZE_THRESHOLD: usize = 1000000;


/// The contents replayed from a log whose active file gained one record are
/// the old contents with that record's command applied.
pub proof fn lemma_replay_push(log: Seq<Seq<LogEntry>>, e: LogEntry)
    requires
        log.len() > 0,
    ensures
        replay_log(log.update(log.len() - 1, log.last().push(e))) == apply(replay_log(log), e.cmd),
{
    let log2 = log.update(log.len() - 1, log.last().push(e));
    assert(log2.drop_last() =~= log.drop_last());
    assert(log2.last().drop_last() =~= log.last());
}

/// Appending a record to the last file of a log keeps every location valid:
/// the records already there keep their positions and offsets.
pub proof fn lemma_push_keeps_locations(
    idx: Map<Seq<char>, Location>,
    contents: Map<Seq<char>, Seq<char>>,
    positions: Map<Seq<char>, int>,
    log: Seq<Seq<LogEntry>>,
    active: int,
    e: LogEntry,
)
    requires
        log.len() > 0,
        locations_valid(idx, contents, positions, log, active),
    ensures
        locations_valid(
            idx,
            contents,
            positions,
            log.update(log.len() - 1, log.last().push(e)),
            active,
        ),
        payloads(log.last().push(e)) == payloads(log.last()).push(e.payload),
{
    let a = log.len() - 1;
    let log2 = log.update(a, log.last().push(e));
    assert(payloads(log.last().push(e)) =~= payloads(log.last()).push(e.payload));
    assert forall|k: Seq<char>| #![trigger contents.contains_key(k)] contents.contains_key(k) implies {
        let loc = idx[k];
        let f = file_of(loc, active);
        let p = positions[k];
        &&& idx.contains_key(k)
        &&& positions.contains_key(k)
        &&& (loc.0 matches Some(i) ==> i < active)
        &&& 0 <= f < log2.len()
        &&& 0 <= p < log2[f].len()
        &&& payload_offset(payloads(log2[f]), p) == loc.1
        &&& log2[f][p].cmd == CommandView::Put(k, contents[k])
    } by {
        let f = file_of(idx[k], active);
        let p = positions[k];
        if f == a {
            lemma_payload_offset_prefix(payloads(log2[f]), payloads(log[f]), p);
        }
    }
}

/// The mathematical form of decoded commands, file by file.
pub open spec fn commands_view(commands: Seq<Vec<KvCommand>>) -> Seq<Seq<CommandView>> {
    Seq::new(commands.len(), |f: int| commands[f]@.map_values(|c: KvCommand| c@))
}

/// The log files split into whole records, `cmds[f]` giving one command for
/// each record of file `f`; at least the active file is there.
pub open spec fn log_files_valid(files: Seq<Seq<u8>>, cmds: Seq<Seq<CommandView>>) -> bool {
    &&& files.len() >= 1
    &&& files.len() == cmds.len()
    &&& forall|f: int|
        0 <= f < files.len() ==> #[trigger] parse_frames(files[f]) is Some && parse_frames(
            files[f],
        ).unwrap().len() == cmds[f].len()
}

/// The records of log files: record `j` of file `f` holds command `cmds[f][j]`
/// and the `j`-th payload of the file's bytes.
pub open spec fn log_of(files: Seq<Seq<u8>>, cmds: Seq<Seq<CommandView>>) -> Seq<Seq<LogEntry>> {
    Seq::new(
        files.len(),
        |f: int|
            Seq::new(
                cmds[f].len(),
                |j: int| LogEntry { cmd: cmds[f][j], payload: parse_frames(files[f]).unwrap()[j] },
            ),
    )
}

/// Each record kept so far in a freeze is the record that its key's location
/// names in the new immutable file `a`.
pub open spec fn kept_owned(
    idx: Map<Seq<char>, Location>,
    contents: Map<Seq<char>, Seq<char>>,
    positions: Map<Seq<char>, int>,
    kept: Seq<LogEntry>,
    a: int,
) -> bool {
    forall|q: int|
        0 <= q < kept.len() ==> {
            let k = cmd_key(#[trigger] kept[q].cmd);
            &&& contents.contains_key(k)
            &&& idx[k].0 matches Some(i) && i == a
            &&& positions[k] == q
            &&& kept[q].cmd == CommandView::Put(k, contents[k])
        }
}

/// No key whose last record in the active file is a `Remove` is held by the
/// immutable files: a freeze, which keeps no `Remove` record, then loses
/// nothing that reading the log back would see.
pub open spec fn no_shadowed_removes(log: Seq<Seq<LogEntry>>) -> bool {
    forall|k: Seq<char>|
        #[trigger] last_cmd(log.last(), k) matches Some(CommandView::Remove(_)) ==> !replay_log(
            log.drop_last(),
        ).contains_key(k)
}

/// The log in the middle of a freeze: the immutable files, the records kept so
/// far as the next immutable file, then the active file.
pub open spec fn mid_log(old_log: Seq<Seq<LogEntry>>, kept: Seq<LogEntry>) -> Seq<Seq<LogEntry>> {
    old_log.drop_last().push(kept).push(old_log.last())
}

/// Record `j` of the active file `es` holds the latest value of its key: it
/// is a `Put`, and the index `idx` points at its payload in the active file.
pub open spec fn is_live(es: Seq<LogEntry>, j: int, idx: Map<Seq<char>, Location>) -> bool {
    match set_key(es[j].cmd) {
        Some(k) => idx.contains_key(k) && idx[k].0 is None && idx[k].1 == payload_offset(
            payloads(es),
            j,
        ),
        None => false,
    }
}

/// The records of the active file `es` that hold the latest value of their
/// key under the index `idx`, in the order of the file: what a freeze copies
/// into the new immutable file.
pub open spec fn live_records(es: Seq<LogEntry>, idx: Map<Seq<char>, Location>) -> Seq<LogEntry>
    decreases es.len(),
{
    if es.len() == 0 {
        Seq::empty()
    } else if is_live(es, es.len() - 1, idx) {
        live_records(es.drop_last(), idx).push(es.last())
    } else {
        live_records(es.drop_last(), idx)
    }
}

/// The live records of the first `j + 1` records of a file are those of the
/// first `j`, and record `j` when it is live.
proof fn lemma_live_records_step(es: Seq<LogEntry>, j: int, idx: Map<Seq<char>, Location>)
    requires
        0 <= j < es.len(),
    ensures
        live_records(es.subrange(0, j + 1), idx) == if is_live(es, j, idx) {
            live_records(es.subrange(0, j), idx).push(es[j])
        } else {
            live_records(es.subrange(0, j), idx)
        },
{
    let s = es.subrange(0, j + 1);
    assert(s.drop_last() =~= es.subrange(0, j));
    assert(s.last() == es[j]);
    lemma_payload_offset_prefix(payloads(s), payloads(es), j);
    assert(is_live(s, j, idx) == is_live(es, j, idx));
}

pub proof fn lemma_payload_offset_increasing_le(ps: Seq<Seq<u8>>, i: int, j: int)
    requires
        0 <= i <= j,
    ensures
        payload_offset(ps, i) <= payload_offset(ps, j),
{
    if i < j {
        lemma_payload_offset_increasing(ps, i, j);
    }
}

/// During a freeze, a key whose value is in the active file at record `j`
/// is the key of that record, and its location is that record's payload.
proof fn lemma_frame_owner(
    before: Map<Seq<char>, Location>,
    contents: Map<Seq<char>, Seq<char>>,
    bpos: Map<Seq<char>, int>,
    old_log: Seq<Seq<LogEntry>>,
    kept: Seq<LogEntry>,
    j: int,
)
    requires
        old_log.len() > 0,
        locations_valid(before, contents, bpos, mid_log(old_log, kept), old_log.len() as int),
        0 <= j < old_log.last().len(),
    ensures
        forall|k: Seq<char>|
            #![trigger contents.contains_key(k)]
            contents.contains_key(k) && before[k].0 is None && bpos[k] == j ==> set_key(
                old_log.last()[j].cmd,
            ) == Some(k) && before[k].1 == payload_offset(payloads(old_log.last()), j),
{
    let a = old_log.len() - 1;
    assert forall|k: Seq<char>|
        #![trigger contents.contains_key(k)]
        contents.contains_key(k) && before[k].0 is None && bpos[k] == j implies set_key(
            old_log.last()[j].cmd,
        ) == Some(k) && before[k].1 == payload_offset(payloads(old_log.last()), j) by {
        assert(mid_log(old_log, kept)[a + 1] == old_log.last());
    }
}

/// One moving step of a freeze: the key whose latest value is record `j` of
/// the active file now points at that record's copy at the end of the kept
/// records.
proof fn lemma_freeze_move(
    before: Map<Seq<char>, Location>,
    after: Map<Seq<char>, Location>,
    contents: Map<Seq<char>, Seq<char>>,
    bpos: Map<Seq<char>, int>,
    apos: Map<Seq<char>, int>,
    old_log: Seq<Seq<LogEntry>>,
    bkept: Seq<LogEntry>,
    akept: Seq<LogEntry>,
    j: int,
    mk: Seq<char>,
    new_loc: Location,
)
    requires
        old_log.len() > 0,
        locations_valid(before, contents, bpos, mid_log(old_log, bkept), old_log.len() as int),
        0 <= j < old_log.last().len(),
        forall|k: Seq<char>|
            #![trigger contents.contains_key(k)]
            contents.contains_key(k) && before[k].0 is None ==> bpos[k] >= j,
        contents.contains_key(mk),
        before[mk].0 is None,
        before[mk].1 == payload_offset(payloads(old_log.last()), j),
        new_loc.0 matches Some(i) && i == old_log.len() - 1,
        new_loc.1 == payload_offset(payloads(akept), bkept.len() as int),
        after == before.insert(mk, new_loc),
        apos == bpos.insert(mk, bkept.len() as int),
        akept == bkept.push(old_log.last()[j]),
        kept_owned(before, contents, bpos, bkept, old_log.len() - 1),
    ensures
        locations_valid(after, contents, apos, mid_log(old_log, akept), old_log.len() as int),
        kept_owned(after, contents, apos, akept, old_log.len() - 1),
        forall|k: Seq<char>|
            #![trigger contents.contains_key(k)]
            contents.contains_key(k) && after[k].0 is None ==> apos[k] >= j + 1,
        forall|k: Seq<char>|
            #![trigger contents.contains_key(k)]
            contents.contains_key(k) && k != mk ==> after[k] == before[k],
{
    let a = old_log.len() - 1;
    let active = old_log.last();
    let ps = payloads(active);
    let bm = mid_log(old_log, bkept);
    let am = mid_log(old_log, akept);
    let p = bpos[mk];
    assert(bm[a + 1] == active);
    if p < j {
        lemma_payload_offset_increasing(ps, p, j);
    } else if p > j {
        lemma_payload_offset_increasing(ps, j, p);
    }
    assert(p == j);
    assert(payloads(akept) =~= payloads(bkept).push(active[j].payload));
    assert forall|k: Seq<char>| #![trigger contents.contains_key(k)] contents.contains_key(k) implies {
        let loc = after[k];
        let f = file_of(loc, a + 1);
        let q = apos[k];
        &&& after.contains_key(k)
        &&& apos.contains_key(k)
        &&& (loc.0 matches Some(i) ==> i < a + 1)
        &&& 0 <= f < am.len()
        &&& 0 <= q < am[f].len()
        &&& payload_offset(payloads(am[f]), q) == loc.1
        &&& am[f][q].cmd == CommandView::Put(k, contents[k])
    } by {
        if k == mk {
            assert(am[a] == akept);
            assert(akept[bkept.len() as int] == active[j]);
            assert(bm[a + 1][p].cmd == CommandView::Put(mk, contents[mk]));
        } else {
            assert(after[k] == before[k]);
            assert(apos[k] == bpos[k]);
            let f = file_of(before[k], a + 1);
            if f == a {
                assert(am[a] == akept);
                assert(bm[a] == bkept);
                lemma_payload_offset_prefix(payloads(akept), payloads(bkept), bpos[k]);
                assert(akept[bpos[k]] == bkept[bpos[k]]);
            } else {
                assert(am[f] == bm[f]);
            }
        }
    }
    assert forall|q: int| 0 <= q < akept.len() implies {
        let k = cmd_key(#[trigger] akept[q].cmd);
        &&& contents.contains_key(k)
        &&& after[k].0 matches Some(i) && i == a
        &&& apos[k] == q
        &&& akept[q].cmd == CommandView::Put(k, contents[k])
    } by {
        if q < bkept.len() {
            assert(akept[q] == bkept[q]);
            let k = cmd_key(bkept[q].cmd);
            assert(k != mk);
        } else {
            assert(akept[q] == active[j]);
            assert(bm[a + 1][p].cmd == CommandView::Put(mk, contents[mk]));
        }
    }
    assert forall|k: Seq<char>|
        #![trigger contents.contains_key(k)]
        contents.contains_key(k) && after[k].0 is None implies apos[k] >= j + 1 by {
        if bpos[k] == j {
            assert(bm[a + 1][j].cmd == CommandView::Put(k, contents[k]));
            assert(bm[a + 1][j].cmd == CommandView::Put(mk, contents[mk]));
        }
    }
}

/// At the end of a freeze every key points into an immutable file, so the
/// locations stay valid when the active file is emptied; and reading the log
/// back still gives the contents exactly when no key whose last record in the
/// active file is a `Remove` is held by the immutable files.
proof fn lemma_freeze_final(
    idx: Map<Seq<char>, Location>,
    contents: Map<Seq<char>, Seq<char>>,
    positions: Map<Seq<char>, int>,
    old_idx: Map<Seq<char>, Location>,
    old_positions: Map<Seq<char>, int>,
    old_log: Seq<Seq<LogEntry>>,
    kept: Seq<LogEntry>,
)
    requires
        old_log.len() > 0,
        locations_valid(idx, contents, positions, mid_log(old_log, kept), old_log.len() as int),
        forall|k: Seq<char>|
            #![trigger contents.contains_key(k)]
            contents.contains_key(k) && idx[k].0 is None ==> positions[k] >= old_log.last().len(),
        kept_owned(idx, contents, positions, kept, old_log.len() - 1),
        locations_valid(old_idx, contents, old_positions, old_log, old_log.len() - 1),
        locations_latest(old_idx, contents, old_positions, old_log, old_log.len() - 1),
        forall|k: Seq<char>|
            #![trigger contents.contains_key(k)]
            contents.contains_key(k) && old_idx[k].0 is Some ==> idx[k] == old_idx[k]
                && positions[k] == old_positions[k],
        forall|k: Seq<char>|
            #![trigger contents.contains_key(k)]
            contents.contains_key(k) && old_idx[k].0 is None ==> (idx[k].0 matches Some(i) ==> i
                == old_log.len() - 1),
    ensures
        locations_valid(
            idx,
            contents,
            positions,
            old_log.drop_last().push(kept).push(Seq::empty()),
            old_log.len() as int,
        ),
        locations_latest(
            idx,
            contents,
            positions,
            old_log.drop_last().push(kept).push(Seq::empty()),
            old_log.len() as int,
        ),
        contents == replay_log(old_log) ==> (contents == replay_log(
            old_log.drop_last().push(kept).push(Seq::empty()),
        ) <==> no_shadowed_removes(old_log)),
{
    let a = old_log.len() - 1;
    let m = mid_log(old_log, kept);
    let fin = old_log.drop_last().push(kept).push(Seq::<LogEntry>::empty());
    let active = old_log.last();
    assert forall|k: Seq<char>| #![trigger contents.contains_key(k)] contents.contains_key(k) implies {
        let loc = idx[k];
        let f = file_of(loc, a + 1);
        let q = positions[k];
        &&& idx.contains_key(k)
        &&& positions.contains_key(k)
        &&& (loc.0 matches Some(i) ==> i < a + 1)
        &&& 0 <= f < fin.len()
        &&& 0 <= q < fin[f].len()
        &&& payload_offset(payloads(fin[f]), q) == loc.1
        &&& fin[f][q].cmd == CommandView::Put(k, contents[k])
    } by {
        let f = file_of(idx[k], a + 1);
        if idx[k].0 is None {
            assert(m[a + 1] == old_log.last());
        } else {
            assert(fin[f] == m[f]);
        }
    }
    // No key that stays in an older immutable file has a record in the kept
    // records or in the active file.
    assert forall|k: Seq<char>|
        #![trigger contents.contains_key(k)]
        contents.contains_key(k) && old_idx[k].0 is Some implies (forall|q: int|
        0 <= q < kept.len() ==> cmd_key(#[trigger] kept[q].cmd) != k) && (forall|j: int|
        0 <= j < active.len() ==> cmd_key(#[trigger] active[j].cmd) != k) by {
        let i = file_of(old_idx[k], a);
        assert forall|q: int| 0 <= q < kept.len() implies cmd_key(#[trigger] kept[q].cmd) != k by {
            let kq = cmd_key(kept[q].cmd);
            if kq == k {
                assert(idx[k] == old_idx[k]);
            }
        }
        assert forall|j: int| 0 <= j < active.len() implies cmd_key(#[trigger] active[j].cmd)
            != k by {
            assert(old_log[a][j] == active[j]);
        }
    }
    assert forall|k: Seq<char>|
        #![trigger contents.contains_key(k)]
        contents.contains_key(k) implies no_later(
        fin,
        file_of(idx[k], a + 1),
        positions[k],
        k,
    ) by {
        let f = file_of(idx[k], a + 1);
        let q = positions[k];
        if old_idx[k].0 is Some {
            assert(f < a);
            assert forall|j: int| q < j < fin[f].len() implies cmd_key(#[trigger] fin[f][j].cmd)
                != k by {
                assert(fin[f] == old_log[f]);
            }
            assert forall|g: int, j: int|
                f < g < fin.len() && 0 <= j < fin[g].len() implies cmd_key(
                #[trigger] fin[g][j].cmd,
            ) != k by {
                if g < a {
                    assert(fin[g] == old_log[g]);
                } else {
                    assert(fin[g] == kept);
                }
            }
        } else {
            assert(idx[k].0 is Some);
            assert(f == a);
            assert(fin[f] == kept);
            assert forall|j: int| q < j < fin[f].len() implies cmd_key(#[trigger] fin[f][j].cmd)
                != k by {
                let kj = cmd_key(kept[j].cmd);
                if kj == k {
                    assert(positions[k] == j);
                }
            }
        }
    }
    if contents == replay_log(old_log) {
        let imm = old_log.drop_last();
        let r = replay_log(imm);
        assert(old_log.drop_last() == imm);
        assert(fin.drop_last() =~= imm.push(kept));
        assert(imm.push(kept).drop_last() =~= imm);
        assert(fin.last() == Seq::<LogEntry>::empty());
        assert(imm.push(kept).last() == kept);
        assert(replay_log(fin) == replay_log(imm.push(kept)));
        assert(replay_log(fin) == replay_file(r, kept));
        assert(contents == replay_file(r, active));
        let fresh = replay_file(r, kept);
        if no_shadowed_removes(old_log) {
            assert forall|k: Seq<char>| #[trigger] contents.contains_key(k) == fresh.contains_key(k)
                && (contents.contains_key(k) ==> contents[k] == fresh[k]) by {
                lemma_replay_file_key(r, kept, k);
                lemma_replay_file_key(r, active, k);
                if contents.contains_key(k) {
                    if old_idx[k].0 is Some {
                        lemma_last_cmd_none(kept, k);
                        lemma_last_cmd_none(active, k);
                    } else {
                        let q = positions[k];
                        assert(idx[k].0 is Some);
                        assert(kept[q].cmd == CommandView::Put(k, contents[k]));
                        assert forall|j: int| q < j < kept.len() implies cmd_key(
                            #[trigger] kept[j].cmd,
                        ) != k by {
                            if cmd_key(kept[j].cmd) == k {
                                assert(positions[k] == j);
                            }
                        }
                        lemma_last_cmd_at(kept, k, q);
                    }
                } else {
                    assert forall|q: int| 0 <= q < kept.len() implies cmd_key(
                        #[trigger] kept[q].cmd,
                    ) != k by {}
                    lemma_last_cmd_none(kept, k);
                    match last_cmd(active, k) {
                        None => {},
                        Some(CommandView::Put(_, _)) => {},
                        Some(CommandView::Remove(_)) => {},
                    }
                }
            }
            assert(contents =~= fresh);
        } else {
            let k = choose|k: Seq<char>|
                #[trigger] last_cmd(old_log.last(), k) matches Some(CommandView::Remove(_))
                    && replay_log(old_log.drop_last()).contains_key(k);
            lemma_replay_file_key(r, active, k);
            assert(!contents.contains_key(k));
            assert forall|q: int| 0 <= q < kept.len() implies cmd_key(#[trigger] kept[q].cmd)
                != k by {}
            lemma_last_cmd_none(kept, k);
            lemma_replay_file_key(r, kept, k);
            assert(fresh.contains_key(k));
        }
    }
}

/// The bytes of each file of a log.
pub open spec fn log_files(log: Seq<Seq<LogEntry>>) -> Seq<Seq<u8>> {
    log.map_values(|es: Seq<LogEntry>| file_bytes(es))
}

/// The commands of each file of a log.
pub open spec fn log_commands(log: Seq<Seq<LogEntry>>) -> Seq<Seq<CommandView>> {
    log.map_values(|es: Seq<LogEntry>| es.map_values(|e: LogEntry| e.cmd))
}

/// Law: the record that the location of a key names holds the key's value,
/// in the bytes of its file the record's length header sits just before the
/// location and its payload at it, and it is the key's last record: no record
/// after it, in its file or a later one, concerns the key.
pub proof fn law_location_holds_value(store: KvStoreInner, k: Seq<char>)
    requires
        store.wf(),
        store@.contains_key(k),
    ensures
        ({
            let loc = store.location(k);
            let es = store.file_at(loc);
            &&& entry_at(es, loc.1 as int) matches Some(e)
            &&& e.cmd == CommandView::Put(k, store@[k])
            &&& file_bytes(es).subrange(loc.1 - 4, loc.1 as int) == be32(e.payload.len() as u32)
            &&& file_bytes(es).subrange(loc.1 as int, loc.1 + e.payload.len()) == e.payload
            &&& forall|j: int|
                0 <= j < es.len() && payload_offset(payloads(es), j) > loc.1 ==> cmd_key(
                    #[trigger] es[j].cmd,
                ) != k
            &&& forall|g: int, j: int|
                file_of(loc, store.imm_count() as int) < g < store.log().len() && 0 <= j
                    < store.log()[g].len() ==> cmd_key(#[trigger] store.log()[g][j].cmd) != k
        }),
{
    store.lemma_wf_facts();
    let loc = store.location(k);
    let es = store.file_at(loc);
    let p = store.positions@[k];
    assert(store.contents@.contains_key(k));
    lemma_entry_at(es, p);
    lemma_frames_at(payloads(es), p);
    assert forall|j: int|
        0 <= j < es.len() && payload_offset(payloads(es), j) > loc.1 implies cmd_key(
        #[trigger] es[j].cmd,
    ) != k by {
        if j <= p {
            lemma_payload_offset_increasing_le(payloads(es), j, p);
        }
    }
}

/// Law: after `set` puts `k` to `v` with the payload `payload`, the location
/// of `k` names that very record: reading it back gives the payload just
/// written.
pub proof fn law_set_then_get(
    before: KvStoreInner,
    after: KvStoreInner,
    k: Seq<char>,
    v: Seq<char>,
    payload: Seq<u8>,
)
    requires
        before.wf(),
        after.wf(),
        after@ == before@.insert(k, v),
        after.imm_count() == before.imm_count(),
        after.log() == before.log().update(
            before.log().len() - 1,
            before.log().last().push(LogEntry { cmd: CommandView::Put(k, v), payload: payload }),
        ),
        after.location(k).0 is None,
        after.location(k).1 == before.wal_size() + 4,
    ensures
        after@[k] == v,
        entry_at(after.file_at(after.location(k)), after.location(k).1 as int) == Some(
            LogEntry { cmd: CommandView::Put(k, v), payload: payload },
        ),
{
    before.lemma_wf_facts();
    after.lemma_wf_facts();
    let es = before.log().last();
    let es2 = es.push(LogEntry { cmd: CommandView::Put(k, v), payload: payload });
    assert(after.file_at(after.location(k)) == es2);
    assert(payloads(es2) =~= payloads(es).push(payload));
    lemma_frames_len(payloads(es));
    lemma_payload_offset_prefix(payloads(es2), payloads(es), es.len() as int);
    lemma_entry_at(es2, es.len() as int);
}

/// Law: the files of a store that reading its log gives back hold whole
/// records, and reading them back (with the commands of their records)
/// gives the same log and so the same contents: reopening a store finds what
/// it held.
pub proof fn law_reopen_gives_back(store: KvStoreInner)
    requires
        store.wf(),
        store.recoverable(),
    ensures
        log_files_valid(log_files(store.log()), log_commands(store.log())),
        log_of(log_files(store.log()), log_commands(store.log())) == store.log(),
        replay_log(log_of(log_files(store.log()), log_commands(store.log()))) == store@,
{
    store.lemma_wf_facts();
    let log = store.log();
    let fs = log_files(log);
    let cs = log_commands(log);
    assert forall|f: int| 0 <= f < log.len() implies #[trigger] parse_frames(fs[f]) == Some(
        payloads(log[f]),
    ) by {
        assert forall|j: int| 0 <= j < payloads(log[f]).len() implies #[trigger] payloads(
            log[f],
        )[j].len() <= u32::MAX by {
            assert(log[f][j].payload.len() <= u32::MAX);
        }
        lemma_parse_frames_roundtrip(payloads(log[f]));
    }
    assert(log_files_valid(fs, cs));
    assert forall|f: int| 0 <= f < log.len() implies #[trigger] log_of(fs, cs)[f] == log[f] by {
        assert(log_of(fs, cs)[f] =~= log[f]);
    }
    assert(log_of(fs, cs) =~= log);
}

/// Law: the index holds exactly the keys of the contents, and the size of
/// the active file is the length of its bytes.
pub proof fn law_index_and_size(store: KvStoreInner)
    requires
        store.wf(),
    ensures
        store.index().dom() == store@.dom(),
        store.wal_size() == file_bytes(store.log().last()).len(),
{
}

/// Law: after a write and the freeze that is then due, the active file holds
/// fewer bytes than the freezing threshold. `due` is what
/// `check_and_do_freeze` answered on the store after the write; when due,
/// `after` is the store that `freeze_wal` left, otherwise the same store.
pub proof fn law_active_file_below_threshold(
    written: KvStoreInner,
    due: bool,
    after: KvStoreInner,
)
    requires
        due == (written.wal_size() >= FREEZE_THRESHOLD),
        due ==> after.wal_size() == 0,
        !due ==> after == written,
    ensures
        after.wal_size() < FREEZE_THRESHOLD,
{
}

/// The record at a payload offset is the one whose payload starts there.
pub proof fn lemma_entry_at(es: Seq<LogEntry>, p: int)
    requires
        0 <= p < es.len(),
    ensures
        entry_at(es, payload_offset(payloads(es), p)) == Some(es[p]),
{
    let off = payload_offset(payloads(es), p);
    assert(exists|j: int| 0 <= j < es.len() && payload_offset(payloads(es), j) == off);
    let j = choose|j: int| 0 <= j < es.len() && payload_offset(payloads(es), j) == off;
    if j < p {
        lemma_payload_offset_increasing(payloads(es), j, p);
    } else if p < j {
        lemma_payload_offset_increasing(payloads(es), p, j);
    }
}

} // verus!
