//! The lines of a terminal session in which a file system is looked over.

use vstd::prelude::*;
use crate::text::{copy_part, find_byte, next_byte, parse_usize, unsigned_value};

verus! {

/// What a line of the session says.
#[derive(Debug, Clone, Copy, PartialEq, Eq)]
pub enum Command {
    /// Go to the root.
    Root,
    /// Go to the directory above.
    Up,
    /// Go into the directory whose name begins at the given byte of the
    /// line and runs to its end.
    Into(usize),
    /// A file of the given size is listed; its name begins at the given
    /// byte and runs to the end of the line.
    File(u64, usize),
    /// Nothing to do: another command, or a directory that is listed.
    Nothing,
}

/// Whether the text begins with the given bytes.
pub open spec fn begins_with(line: Seq<u8>, start: Seq<u8>) -> bool {
    line.len() >= start.len() && line.subrange(0, start.len() as int) == start
}

/// `$ cd `
pub open spec fn cd() -> Seq<u8> {
    seq![36u8, 32u8, 99u8, 100u8, 32u8]
}

/// What the line says; none if it should list a file and does not begin
/// with a size that fits and a space.
pub open spec fn command_of(line: Seq<u8>) -> Option<Command> {
    if line == cd().push(47) {
        Some(Command::Root)
    } else if line == cd().push(46).push(46) {
        Some(Command::Up)
    } else if begins_with(line, cd()) {
        Some(Command::Into(5))
    } else if begins_with(line, seq![36u8]) || begins_with(line, seq![100u8, 105u8, 114u8]) {
        Some(Command::Nothing)
    } else {
        let space = next_byte(line, 32, 0);
        if space >= line.len() {
            None
        } else {
            match unsigned_value(line.subrange(0, space)) {
                Some(size) => if size <= usize::MAX {
                    Some(Command::File(size as u64, (space + 1) as usize))
                } else {
                    None
                },
                None => None,
            }
        }
    }
}

/// Whether the line begins with the given bytes.
pub fn has_start(line: &[u8], start: &[u8]) -> (yes: bool)
    ensures
        yes == begins_with(line@, start@),
{
    if line.len() < start.len() {
        return false;
    }
    let mut i: usize = 0;
    while i < start.len()
        invariant
            i <= start@.len() <= line@.len(),
            forall|k: int| 0 <= k < i ==> line@[k] == start@[k],
        decreases start@.len() - i,
    {
        if line[i] != start[i] {
            assert(line@.subrange(0, start@.len() as int)[i as int] != start@[i as int]);
            return false;
        }
        i += 1;
    }
    assert(line@.subrange(0, start@.len() as int) =~= start@);
    true
}

/// What the bytes of a line say.
pub fn read_command(line: &[u8]) -> (command: Option<Command>)
    ensures
        command == command_of(line@),
{
    let change: [u8; 5] = [36, 32, 99, 100, 32];
    assert(change@ =~= cd());
    if has_start(line, change.as_slice()) {
        if line.len() == 6 && line[5] == 47 {
            assert(line@ =~= cd().push(47));
            return Some(Command::Root);
        }
        if line.len() == 7 && line[5] == 46 && line[6] == 46 {
            assert(line@ =~= cd().push(46).push(46));
            return Some(Command::Up);
        }
        proof {
            if line@ == cd().push(47) {
                assert(line@[5] == 47);
            }
            if line@ == cd().push(46).push(46) {
                assert(line@[5] == 46 && line@[6] == 46);
            }
        }
        return Some(Command::Into(5));
    }
    proof {
        if line@ == cd().push(47) {
            assert(line@.subrange(0, 5) =~= cd());
        }
        if line@ == cd().push(46).push(46) {
            assert(line@.subrange(0, 5) =~= cd());
        }
    }
    let dollar: [u8; 1] = [36];
    let dir: [u8; 3] = [100, 105, 114];
    assert(dollar@ =~= seq![36u8]);
    assert(dir@ =~= seq![100u8, 105u8, 114u8]);
    if has_start(line, dollar.as_slice()) || has_start(line, dir.as_slice()) {
        return Some(Command::Nothing);
    }
    let space = find_byte(line, 32, 0);
    if space >= line.len() {
        return None;
    }
    match parse_usize(copy_part(line, 0, space).as_slice()) {
        Some(size) => Some(Command::File(size as u64, space + 1)),
        None => None,
    }
}

} // verus!
