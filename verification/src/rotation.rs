//! Rolling rotation of the CSV file, as a sequence of file operations.
use vstd::prelude::*;

verus! {

/// An operation on the files that take part in a rotation. The file number zero
/// is the active one, the others are its numbered backups.
#[derive(Debug, Clone, Copy, PartialEq, Eq, Structural)]
pub enum FileAction {
    /// Find out whether the file is there.
    Probe(u32),
    /// Delete the file.
    Remove(u32),
    /// Give the file `from` the place of `to`.
    Rename { from: u32, to: u32 },
    /// Create the active file anew, with nothing but the header in it.
    Recreate,
}

/// Where a rotation stands: the operation that comes next.
#[derive(Debug, Clone, Copy, PartialEq, Eq, Structural)]
pub enum RotationPhase {
    ProbeOldest,
    RemoveOldest,
    ProbeSource(u32),
    ProbeTarget(u32),
    RemoveTarget(u32),
    MoveUp(u32),
    ProbeActive,
    RemoveActive,
    CreateActive,
    Finished,
}

/// A rotation that keeps up to `max_files` backups. The operations are carried
/// out one by one by the holder, who reports after a probe whether the file was
/// there; an operation that fails is passed over.
#[derive(Debug, Clone, Copy, PartialEq, Eq, Structural)]
pub struct Rotation {
    pub max_files: u32,
    pub phase: RotationPhase,
}

/// What comes after the file `i` has been moved up or found missing.
pub open spec fn after_move(i: u32) -> RotationPhase {
    if i == 0 {
        RotationPhase::CreateActive
    } else {
        RotationPhase::ProbeSource((i - 1) as u32)
    }
}

impl Rotation {
    /// The phases that a rotation can be in.
    pub open spec fn wf(self) -> bool {
        match self.phase {
            RotationPhase::ProbeOldest | RotationPhase::RemoveOldest => self.max_files > 0,
            RotationPhase::ProbeSource(i)
            | RotationPhase::ProbeTarget(i)
            | RotationPhase::RemoveTarget(i)
            | RotationPhase::MoveUp(i) => i < self.max_files,
            RotationPhase::ProbeActive | RotationPhase::RemoveActive => self.max_files == 0,
            RotationPhase::CreateActive | RotationPhase::Finished => true,
        }
    }

    /// The first phase: with backups, the oldest one goes first; without, only
    /// the active file.
    pub open spec fn started(max_files: u32) -> Rotation {
        Rotation {
            max_files,
            phase: if max_files > 0 {
                RotationPhase::ProbeOldest
            } else {
                RotationPhase::ProbeActive
            },
        }
    }

    /// The operation of the current phase.
    pub open spec fn action(self) -> Option<FileAction> {
        match self.phase {
            RotationPhase::ProbeOldest => Some(FileAction::Probe(self.max_files)),
            RotationPhase::RemoveOldest => Some(FileAction::Remove(self.max_files)),
            RotationPhase::ProbeSource(i) => Some(FileAction::Probe(i)),
            RotationPhase::ProbeTarget(i) => Some(FileAction::Probe((i + 1) as u32)),
            RotationPhase::RemoveTarget(i) => Some(FileAction::Remove((i + 1) as u32)),
            RotationPhase::MoveUp(i) => Some(FileAction::Rename { from: i, to: (i + 1) as u32 }),
            RotationPhase::ProbeActive => Some(FileAction::Probe(0)),
            RotationPhase::RemoveActive => Some(FileAction::Remove(0)),
            RotationPhase::CreateActive => Some(FileAction::Recreate),
            RotationPhase::Finished => None,
        }
    }

    /// The phase after the current one; `present` is the answer to its probe.
    pub open spec fn next(self, present: bool) -> Rotation {
        let phase = match self.phase {
            RotationPhase::ProbeOldest => if present {
                RotationPhase::RemoveOldest
            } else {
                RotationPhase::ProbeSource((self.max_files - 1) as u32)
            },
            RotationPhase::RemoveOldest => RotationPhase::ProbeSource((self.max_files - 1) as u32),
            RotationPhase::ProbeSource(i) => if present {
                RotationPhase::ProbeTarget(i)
            } else {
                after_move(i)
            },
            RotationPhase::ProbeTarget(i) => if present {
                RotationPhase::RemoveTarget(i)
            } else {
                RotationPhase::MoveUp(i)
            },
            RotationPhase::RemoveTarget(i) => RotationPhase::MoveUp(i),
            RotationPhase::MoveUp(i) => after_move(i),
            RotationPhase::ProbeActive => if present {
                RotationPhase::RemoveActive
            } else {
                RotationPhase::CreateActive
            },
            RotationPhase::RemoveActive => RotationPhase::CreateActive,
            RotationPhase::CreateActive => RotationPhase::Finished,
            RotationPhase::Finished => RotationPhase::Finished,
        };
        Rotation { phase, ..self }
    }

    /// How many more phases there can be at most.
    pub open spec fn remaining(self) -> nat {
        match self.phase {
            RotationPhase::ProbeOldest => (4 * self.max_files + 4) as nat,
            RotationPhase::RemoveOldest => (4 * self.max_files + 3) as nat,
            RotationPhase::ProbeSource(i) => (4 * i + 6) as nat,
            RotationPhase::ProbeTarget(i) => (4 * i + 5) as nat,
            RotationPhase::RemoveTarget(i) => (4 * i + 4) as nat,
            RotationPhase::MoveUp(i) => (4 * i + 3) as nat,
            RotationPhase::ProbeActive => 3,
            RotationPhase::RemoveActive => 2,
            RotationPhase::CreateActive => 1,
            RotationPhase::Finished => 0,
        }
    }

    /// Begins a rotation.
    pub fn start(max_files: u32) -> (r: Rotation)
        ensures
            r == Rotation::started(max_files),
            r.wf(),
    {
        Rotation {
            max_files,
            phase: if max_files > 0 {
                RotationPhase::ProbeOldest
            } else {
                RotationPhase::ProbeActive
            },
        }
    }

    /// The operation to carry out now; `None` when the rotation is over.
    pub fn current(&self) -> (r: Option<FileAction>)
        requires
            self.wf(),
        ensures
            r == self.action(),
    {
        match self.phase {
            RotationPhase::ProbeOldest => Some(FileAction::Probe(self.max_files)),
            RotationPhase::RemoveOldest => Some(FileAction::Remove(self.max_files)),
            RotationPhase::ProbeSource(i) => Some(FileAction::Probe(i)),
            RotationPhase::ProbeTarget(i) => Some(FileAction::Probe(i + 1)),
            RotationPhase::RemoveTarget(i) => Some(FileAction::Remove(i + 1)),
            RotationPhase::MoveUp(i) => Some(FileAction::Rename { from: i, to: i + 1 }),
            RotationPhase::ProbeActive => Some(FileAction::Probe(0)),
            RotationPhase::RemoveActive => Some(FileAction::Remove(0)),
            RotationPhase::CreateActive => Some(FileAction::Recreate),
            RotationPhase::Finished => None,
        }
    }

    /// Goes on to the next operation. After a probe, `present` tells whether the
    /// file was there; after other operations it has no meaning.
    pub fn advance(&mut self, present: bool)
        requires
            old(self).wf(),
        ensures
            *final(self) == old(self).next(present),
            final(self).wf(),
            old(self).remaining() > 0 ==> final(self).remaining() < old(self).remaining(),
    {
        self.phase = match self.phase {
            RotationPhase::ProbeOldest => if present {
                RotationPhase::RemoveOldest
            } else {
                RotationPhase::ProbeSource(self.max_files - 1)
            },
            RotationPhase::RemoveOldest => RotationPhase::ProbeSource(self.max_files - 1),
            RotationPhase::ProbeSource(i) => if present {
                RotationPhase::ProbeTarget(i)
            } else if i == 0 {
                RotationPhase::CreateActive
            } else {
                RotationPhase::ProbeSource(i - 1)
            },
            RotationPhase::ProbeTarget(i) => if present {
                RotationPhase::RemoveTarget(i)
            } else {
                RotationPhase::MoveUp(i)
            },
            RotationPhase::RemoveTarget(i) => RotationPhase::MoveUp(i),
            RotationPhase::MoveUp(i) => if i == 0 {
                RotationPhase::CreateActive
            } else {
                RotationPhase::ProbeSource(i - 1)
            },
            RotationPhase::ProbeActive => if present {
                RotationPhase::RemoveActive
            } else {
                RotationPhase::CreateActive
            },
            RotationPhase::RemoveActive => RotationPhase::CreateActive,
            RotationPhase::CreateActive => RotationPhase::Finished,
            RotationPhase::Finished => RotationPhase::Finished,
        };
    }
}

/// The contents of the files that are there, by number.
pub type Files = Map<nat, Seq<char>>;

/// The answer to a probe of `files`.
pub open spec fn answer(files: Files, action: FileAction) -> bool {
    match action {
        FileAction::Probe(n) => files.contains_key(n as nat),
        _ => false,
    }
}

/// The files after an operation that succeeds; `header` is what a new active file
/// holds.
pub open spec fn performed(files: Files, action: FileAction, header: Seq<char>) -> Files {
    match action {
        FileAction::Probe(n) => files,
        FileAction::Remove(n) => files.remove(n as nat),
        FileAction::Rename { from, to } => files.remove(from as nat).insert(
            to as nat,
            files[from as nat],
        ),
        FileAction::Recreate => files.insert(0, header),
    }
}

/// The files at the end of a rotation whose operations all succeed.
pub open spec fn carried_out(r: Rotation, files: Files, header: Seq<char>) -> Files
    decreases r.remaining(),
    when r.wf()
{
    match r.action() {
        None => files,
        Some(action) => carried_out(
            r.next(answer(files, action)),
            performed(files, action, header),
            header,
        ),
    }
}

/// The files as a rotation is to leave them: the active file holds the header
/// only, what it held is the first backup, every backup has moved up by one, and
/// the oldest is gone. Without backups only the active file changes. Files with
/// higher numbers stay as they are.
pub open spec fn rotated(files: Files, max_files: u32, header: Seq<char>) -> Files {
    Map::new(
        |n: nat| n == 0 || (if n <= max_files {
            files.contains_key((n - 1) as nat)
        } else {
            files.contains_key(n)
        }),
        |n: nat| if n == 0 {
            header
        } else if n <= max_files {
            files[(n - 1) as nat]
        } else {
            files[n]
        },
    )
}

/// The files when those with numbers from `i` on have been moved up: the place
/// `i` is empty.
spec fn moved_up(files: Files, max_files: u32, i: nat) -> Files {
    Map::new(
        |n: nat| if n < i || n > max_files {
            files.contains_key(n)
        } else {
            n > i && files.contains_key((n - 1) as nat)
        },
        |n: nat| if n < i || n > max_files {
            files[n]
        } else {
            files[(n - 1) as nat]
        },
    )
}

/// Moving up the file `i`, or finding it missing, empties its place.
proof fn lemma_move_up(files: Files, max_files: u32, i: u32, header: Seq<char>)
    requires
        i < max_files,
    ensures
        carried_out(
            Rotation { max_files, phase: RotationPhase::ProbeSource(i) },
            moved_up(files, max_files, (i + 1) as nat),
            header,
        ) == rotated(files, max_files, header),
    decreases i,
{
    let now = moved_up(files, max_files, (i + 1) as nat);
    let then = moved_up(files, max_files, i as nat);
    let source = Rotation { max_files, phase: RotationPhase::ProbeSource(i) };
    let target = Rotation { max_files, phase: RotationPhase::ProbeTarget(i) };
    let moving = Rotation { max_files, phase: RotationPhase::MoveUp(i) };
    let after = Rotation { max_files, phase: after_move(i) };
    assert(carried_out(source, now, header) == carried_out(
        source.next(answer(now, FileAction::Probe(i))),
        now,
        header,
    ));
    if now.contains_key(i as nat) {
        assert(carried_out(target, now, header) == carried_out(
            target.next(answer(now, FileAction::Probe((i + 1) as u32))),
            now,
            header,
        ));
        assert(!now.contains_key((i + 1) as nat));
        let action = FileAction::Rename { from: i, to: (i + 1) as u32 };
        assert(performed(now, action, header) =~= then);
        assert(carried_out(moving, now, header) == carried_out(
            moving.next(false),
            then,
            header,
        ));
    } else {
        assert(now =~= then);
    }
    assert(carried_out(source, now, header) == carried_out(after, then, header));
    if i > 0 {
        lemma_move_up(files, max_files, (i - 1) as u32, header);
    } else {
        let end = Rotation { max_files, phase: RotationPhase::Finished };
        assert(carried_out(after, then, header) == carried_out(
            end,
            then.insert(0, header),
            header,
        ));
        assert(then.insert(0, header) =~= rotated(files, max_files, header));
    }
}

/// A rotation whose operations succeed shifts the backups up, turns the active
/// file into the first backup, drops the oldest and begins the active file anew.
pub proof fn law_rotation_shifts_backups(files: Files, max_files: u32, header: Seq<char>)
    ensures
        carried_out(Rotation::started(max_files), files, header) == rotated(
            files,
            max_files,
            header,
        ),
{
    let start = Rotation::started(max_files);
    let end = Rotation { max_files, phase: RotationPhase::Finished };
    let create = Rotation { max_files, phase: RotationPhase::CreateActive };
    if max_files > 0 {
        let source = Rotation {
            max_files,
            phase: RotationPhase::ProbeSource((max_files - 1) as u32),
        };
        let drop = Rotation { max_files, phase: RotationPhase::RemoveOldest };
        let now = moved_up(files, max_files, max_files as nat);
        assert(carried_out(start, files, header) == carried_out(
            start.next(answer(files, FileAction::Probe(max_files))),
            files,
            header,
        ));
        if files.contains_key(max_files as nat) {
            assert(carried_out(drop, files, header) == carried_out(
                source,
                files.remove(max_files as nat),
                header,
            ));
            assert(files.remove(max_files as nat) =~= now);
        } else {
            assert(files =~= now);
        }
        lemma_move_up(files, max_files, (max_files - 1) as u32, header);
    } else {
        let drop = Rotation { max_files, phase: RotationPhase::RemoveActive };
        assert(carried_out(start, files, header) == carried_out(
            start.next(answer(files, FileAction::Probe(0))),
            files,
            header,
        ));
        if files.contains_key(0) {
            assert(carried_out(drop, files, header) == carried_out(
                create,
                files.remove(0),
                header,
            ));
            assert(carried_out(create, files.remove(0), header) == carried_out(
                end,
                files.remove(0).insert(0, header),
                header,
            ));
            assert(files.remove(0).insert(0, header) =~= rotated(files, max_files, header));
        } else {
            assert(carried_out(create, files, header) == carried_out(
                end,
                files.insert(0, header),
                header,
            ));
            assert(files.insert(0, header) =~= rotated(files, max_files, header));
        }
    }
}

/// Rotation never keeps more backups than it may: where no file had a number
/// above `max_files` before, none has one afterwards.
pub proof fn law_rotation_keeps_at_most_max_files(files: Files, max_files: u32, header: Seq<char>)
    requires
        forall|n: nat| files.contains_key(n) ==> n <= max_files,
    ensures
        forall|n: nat|
            carried_out(Rotation::started(max_files), files, header).contains_key(n) ==> n
                <= max_files,
{
    law_rotation_shifts_backups(files, max_files, header);
}

/// Whatever the probes answer and whichever operations fail, a rotation removes
/// and renames only the active file and the backups up to `max_files`, moves a
/// file up by one place only, and removes the active file only if there are to be
/// no backups.
pub proof fn law_rotation_touches_only_its_files(r: Rotation)
    requires
        r.wf(),
    ensures
        match r.action() {
            Some(FileAction::Probe(n)) => n <= r.max_files,
            Some(FileAction::Remove(n)) => n <= r.max_files && (n == 0 ==> r.max_files == 0),
            Some(FileAction::Rename { from, to }) => to == from + 1 && to <= r.max_files,
            Some(FileAction::Recreate) => true,
            None => r.phase == RotationPhase::Finished,
        },
        r.next(true).wf(),
        r.next(false).wf(),
{
}

/// The operations that the holder of a rotation carries out, one after the other, each
/// chosen by the rotation and answered by the files.
pub open spec fn is_run(steps: Seq<(Rotation, Files)>, header: Seq<char>) -> bool {
    forall|i: int|
        0 <= i < steps.len() - 1 ==> {
            let (r, files) = #[trigger] steps[i];
            let (next, then) = steps[i + 1];
            &&& r.action() is Some
            &&& next == r.next(
                r.action()->0 matches FileAction::Probe(n) && files.contains_key(n as nat),
            )
            &&& then == match r.action()->0 {
                FileAction::Probe(n) => files,
                FileAction::Remove(n) => files.remove(n as nat),
                FileAction::Rename { from, to } => files.remove(from as nat).insert(
                    to as nat,
                    files[from as nat],
                ),
                FileAction::Recreate => files.insert(0, header),
            }
        }
}

/// What a run of operations ends with is what the rest of the rotation makes of any of
/// its steps.
proof fn lemma_run(steps: Seq<(Rotation, Files)>, header: Seq<char>, i: int)
    requires
        is_run(steps, header),
        0 <= i < steps.len(),
        steps[0].0.wf(),
    ensures
        steps[i].0.wf(),
        steps[i].0.max_files == steps[0].0.max_files,
        carried_out(steps[0].0, steps[0].1, header) == carried_out(
            steps[i].0,
            steps[i].1,
            header,
        ),
    decreases i,
{
    if i > 0 {
        lemma_run(steps, header, i - 1);
        let (r, files) = steps[i - 1];
        law_rotation_touches_only_its_files(r);
        let action = r.action()->0;
        assert(steps[i].0 == r.next(answer(files, action)));
        assert(steps[i].1 == performed(files, action, header));
    }
}

/// When every operation that a rotation asks for succeeds, it ends with the header
/// alone in the active file, each file that was there one place up, and the oldest
/// gone: place `n` holds just what place `n - 1` held before. Without backups only the
/// active file changes. Files with higher numbers are left alone.
pub proof fn law_rotation_moves_each_file_up(
    max_files: u32,
    first: Rotation,
    steps: Seq<(Rotation, Files)>,
    header: Seq<char>,
    n: nat,
)
    requires
        call_ensures(Rotation::start, (max_files,), first),
        steps.len() > 0,
        steps[0].0 == first,
        is_run(steps, header),
        steps.last().0.action() is None,
    ensures
        ({
            let (before, after) = (steps[0].1, steps.last().1);
            if n == 0 {
                after.contains_key(0) && after[0] == header
            } else if n <= max_files {
                &&& after.contains_key(n) <==> before.contains_key((n - 1) as nat)
                &&& after.contains_key(n) ==> after[n] == before[(n - 1) as nat]
            } else {
                &&& after.contains_key(n) <==> before.contains_key(n)
                &&& after.contains_key(n) ==> after[n] == before[n]
            }
        }),
{
    let last = steps.len() - 1;
    lemma_run(steps, header, last);
    law_rotation_shifts_backups(steps[0].1, max_files, header);
    assert(carried_out(steps[last].0, steps[last].1, header) == steps[last].1);
}

/// The operation of a rotation and the next one, as its holder learns and reports
/// them, are those that its runs are made of.
pub proof fn law_holder_carries_out_the_rotation(
    r: &mut Rotation,
    action: Option<FileAction>,
    present: bool,
)
    requires
        call_ensures(Rotation::current, (&*old(r),), action),
        call_ensures(Rotation::advance, (r, present), ()),
        old(r).wf(),
    ensures
        action == old(r).action(),
        *final(r) == old(r).next(present),
        final(r).max_files == old(r).max_files,
        action matches Some(FileAction::Rename { from, to }) ==> to == from + 1 && to <= old(
            r,
        ).max_files,
        action matches Some(FileAction::Remove(n)) ==> n <= old(r).max_files,
        action is None ==> *final(r) == *old(r),
{
}

/// What the files are like in each phase of a run.
proof fn lemma_phases_of_a_run(steps: Seq<(Rotation, Files)>, header: Seq<char>, i: int)
    requires
        is_run(steps, header),
        0 <= i < steps.len(),
        steps[0].0.wf(),
        steps[0].0.phase == RotationPhase::ProbeOldest || steps[0].0.phase
            == RotationPhase::ProbeActive,
    ensures
        ({
            let (r, files) = steps[i];
            match r.phase {
                RotationPhase::RemoveOldest => files.contains_key(r.max_files as nat),
                RotationPhase::ProbeTarget(k) => files.contains_key(k as nat),
                RotationPhase::RemoveTarget(k) => files.contains_key(k as nat)
                    && files.contains_key((k + 1) as nat),
                RotationPhase::MoveUp(k) => files.contains_key(k as nat) && !files.contains_key(
                    (k + 1) as nat,
                ),
                RotationPhase::RemoveActive => files.contains_key(0),
                _ => true,
            }
        }),
    decreases i,
{
    if i > 0 {
        lemma_phases_of_a_run(steps, header, i - 1);
        lemma_run(steps, header, i - 1);
        let (r, files) = steps[i - 1];
        let (next, then) = steps[i];
        assert(steps[i - 1 + 1] == steps[i]);
        assert(next == r.next(
            r.action()->0 matches FileAction::Probe(n) && files.contains_key(n as nat),
        ));
    }
}

/// A rotation removes and renames files that are there alone, renames none onto another
/// one that is there, and creates the active file anew as its last operation.
pub proof fn law_rotation_overwrites_nothing(
    max_files: u32,
    first: Rotation,
    steps: Seq<(Rotation, Files)>,
    header: Seq<char>,
    i: int,
)
    requires
        call_ensures(Rotation::start, (max_files,), first),
        steps.len() > 0,
        steps[0].0 == first,
        is_run(steps, header),
        0 <= i < steps.len(),
    ensures
        ({
            let (r, files) = steps[i];
            match r.action() {
                Some(FileAction::Remove(n)) => files.contains_key(n as nat),
                Some(FileAction::Rename { from, to }) => files.contains_key(from as nat)
                    && !files.contains_key(to as nat),
                Some(FileAction::Recreate) => i + 1 < steps.len() ==> steps[i + 1].0.action() is None,
                Some(FileAction::Probe(n)) => n <= max_files,
                None => i == steps.len() - 1,
            }
        }),
{
    lemma_phases_of_a_run(steps, header, i);
    lemma_run(steps, header, i);
    let (r, files) = steps[i];
    if i + 1 < steps.len() {
        assert(r.action() is Some);
        assert(steps[i + 1].0 == r.next(
            r.action()->0 matches FileAction::Probe(n) && files.contains_key(n as nat),
        ));
    }
}

/// Only after a probe does it matter whether a file was there. An operation that removes,
/// renames or creates a file is followed by the same one, whether it failed or not.
pub proof fn law_answers_matter_after_probes_alone(
    r: &mut Rotation,
    s: &mut Rotation,
    action: Option<FileAction>,
)
    requires
        call_ensures(Rotation::current, (&*old(r),), action),
        call_ensures(Rotation::advance, (r, true), ()),
        call_ensures(Rotation::advance, (s, false), ()),
        *old(s) == *old(r),
        !(action matches Some(FileAction::Probe(n))),
    ensures
        *final(r) == *final(s),
{
}

} // verus!
