//! The decisions of the spin locks, as steps on the value of the lock word
//! and of the critical-section nesting counter. The reader-writer lock word
//! holds the writer flag in bit 0 and the number of readers above it.
use vstd::prelude::*;

verus! {

#[derive(Debug, PartialEq, Eq, Structural, Clone, Copy)]
pub enum Error {
    WouldBlock,
}

pub const WRITE_LOCK_FLAG: u32 = 1;

pub const NUM_READERS_OFFSET: u32 = 1;

pub const NUM_READERS_MASK: u32 = 0xFFFF_FFFE;

/// Whether the word says that a writer holds the lock.
pub open spec fn write_locked(lock: u32) -> bool {
    lock % 2 == 1
}

/// The number of readers that the word counts.
pub open spec fn readers(lock: u32) -> int {
    lock as int / 2
}

proof fn lemma_word_fields(lock: u32)
    ensures
        (lock & WRITE_LOCK_FLAG) == lock % 2,
        (lock & NUM_READERS_MASK) == lock - lock % 2,
        (lock >> NUM_READERS_OFFSET) == lock / 2,
        lock | WRITE_LOCK_FLAG == (if lock % 2 == 1 { lock as int } else { lock + 1 }),
        lock & !WRITE_LOCK_FLAG == lock - lock % 2,
        (1u32 << NUM_READERS_OFFSET) == 2,
{
    assert((1u32 << 1u32) == 2u32 && (lock & 1u32) == lock % 2 && (lock & 0xFFFF_FFFEu32) == lock - lock
        % 2 && (lock >> 1u32) == lock / 2 && lock | 1u32 == (if lock % 2 == 1 {
        lock as int
    } else {
        lock + 1
    }) && lock & !1u32 == lock - lock % 2) by (bit_vector);
}

/// What taking the lock for reading does with the word `lock`: it fails
/// while a writer holds it, and otherwise counts one more reader; the
/// first reader enters the critical section.
pub fn read_lock_step(lock: u32) -> (step: Result<(u32, bool), Error>)
    requires
        !write_locked(lock) ==> readers(lock) < 0x7FFF_FFFF,
    ensures
        write_locked(lock) ==> step == Err::<(u32, bool), Error>(Error::WouldBlock),
        !write_locked(lock) ==> step == Ok::<(u32, bool), Error>(((lock + 2) as u32, readers(lock) == 0)),
{
    proof {
        lemma_word_fields(lock);
    }
    if (lock & WRITE_LOCK_FLAG) != 0 {
        return Err(Error::WouldBlock);
    }
    let affects_nesting = (lock & NUM_READERS_MASK) == 0;
    let new_lock = lock + (1 << NUM_READERS_OFFSET);
    Ok((new_lock, affects_nesting))
}

/// What a reader leaving does with the word `lock`; the last reader leaves
/// the critical section.
pub fn read_unlock_step(lock: u32) -> (step: (u32, bool))
    requires
        !write_locked(lock),
        readers(lock) > 0,
    ensures
        step.0 == lock - 2,
        step.1 == (readers(lock) == 1),
{
    proof {
        lemma_word_fields(lock);
    }
    let affects_critical_nesting = (lock >> NUM_READERS_OFFSET) == 1;
    let new_lock = lock - (1 << NUM_READERS_OFFSET);
    (new_lock, affects_critical_nesting)
}

/// What taking the lock for writing does with the word `lock`: it fails
/// while a writer or any reader holds it.
pub fn write_lock_step(lock: u32) -> (step: Result<u32, Error>)
    ensures
        (write_locked(lock) || readers(lock) > 0) ==> step == Err::<u32, Error>(Error::WouldBlock),
        !(write_locked(lock) || readers(lock) > 0) ==> step == Ok::<u32, Error>(1u32),
{
    proof {
        lemma_word_fields(lock);
    }
    if ((lock & WRITE_LOCK_FLAG) != 0) || ((lock & NUM_READERS_MASK) != 0) {
        return Err(Error::WouldBlock);
    }
    Ok(lock | WRITE_LOCK_FLAG)
}

/// What the writer leaving does with the word `lock`.
pub fn write_unlock_step(lock: u32) -> (new_lock: u32)
    requires
        write_locked(lock),
        readers(lock) == 0,
    ensures
        new_lock == 0,
{
    proof {
        lemma_word_fields(lock);
    }
    lock & !WRITE_LOCK_FLAG
}

/// Entering a critical section with the nesting counter at `prev`: the
/// outermost entry saves the interrupt mask.
pub fn enter_critical_step(prev: u32) -> (step: (u32, bool))
    requires
        prev < u32::MAX,
    ensures
        step == ((prev + 1) as u32, prev == 0),
{
    (prev + 1, prev == 0)
}

/// Leaving a critical section with the nesting counter at `prev`: the
/// outermost exit restores the interrupt mask.
pub fn exit_critical_step(prev: u32) -> (step: (u32, bool))
    requires
        prev > 0,
    ensures
        step == ((prev - 1) as u32, prev == 1),
{
    (prev - 1, prev == 1)
}

/// A reader that comes and goes leaves the word as it found it.
pub proof fn law_read_round_trip(lock: u32)
    requires
        !write_locked(lock),
        readers(lock) < 0x7FFF_FFFF,
    ensures
        !write_locked((lock + 2) as u32),
        readers((lock + 2) as u32) == readers(lock) + 1,
        (((lock + 2) as u32) - 2) as u32 == lock,
{
}

/// A writer excludes every other holder, and the word goes back to free
/// when it leaves.
pub proof fn law_writer_excludes_all(lock: u32)
    requires
        lock == 1,
    ensures
        write_locked(lock),
        readers(lock) == 0,
{
}

/// The interrupt mask is saved by the outermost entry and restored by the
/// matching exit, whatever nests in between.
pub proof fn law_nesting_round_trip(prev: u32)
    requires
        prev < u32::MAX,
    ensures
        ((prev + 1) as u32) > 0,
        (((prev + 1) as u32) - 1) as u32 == prev,
        (prev == 0) == ((prev + 1) as u32 == 1),
{
}

} // verus!
