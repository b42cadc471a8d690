//! Outcome codes of the three command layers: meta commands, statement
//! preparation, and statement execution. User-input failures are reported
//! through these and leave the table untouched; the REPL goes on.

use vstd::prelude::*;
use vstd::string::StringSliceAdditionalSpecFns;

verus! {

#[derive(Debug, PartialEq, Eq, Structural, Clone, Copy)]
pub enum MetaCommandResult {
    MetaCommandSuccess,
    MetaCommandUnrecognized,
}

#[derive(Debug, PartialEq, Eq, Structural, Clone, Copy)]
pub enum PrepareResult {
    PrepareSuccess,
    PrepareUnrecognized,
    PrepareSyntaxErr,
    PrepareStringTooLong,
    PrepareInvalidId,
}

#[derive(Debug, PartialEq, Eq, Structural, Clone, Copy)]
pub enum ExecuteResult {
    ExecuteSuccess,
    ExecuteFail,
    ExecuteTableFull,
    ExecuteDuplicateKey,
}


/// A recognized meta command, or not.
#[derive(Debug, PartialEq, Eq, Structural, Clone, Copy)]
pub enum MetaCommand {
    MetaExit,
    MetaConstants,
    MetaBtree,
    MetaUnknown,
}

/// The bytes of `.exit`.
pub open spec fn exit_command() -> Seq<u8> {
    seq![46u8, 101u8, 120u8, 105u8, 116u8]
}

/// The bytes of `.constants`.
pub open spec fn constants_command() -> Seq<u8> {
    seq![46u8, 99u8, 111u8, 110u8, 115u8, 116u8, 97u8, 110u8, 116u8, 115u8]
}

/// The bytes of `.btree`.
pub open spec fn btree_command() -> Seq<u8> {
    seq![46u8, 98u8, 116u8, 114u8, 101u8, 101u8]
}

/// Whether two byte strings are equal.
fn bytes_equal(a: &[u8], b: &[u8]) -> (r: bool)
    ensures
        r == (a@ == b@),
{
    if a.len() != b.len() {
        proof {
            assert(a@.len() != b@.len());
        }
        return false;
    }
    let n = a.len();
    let mut i: usize = 0;
    while i < n
        invariant
            n == a@.len() == b@.len(),
            i <= n,
            forall|j: int| 0 <= j < i ==> a@[j] == b@[j],
        decreases n - i,
    {
        if *vstd::slice::slice_index_get(a, i) != *vstd::slice::slice_index_get(b, i) {
            return false;
        }
        i = i + 1;
    }
    proof {
        assert(a@ =~= b@);
    }
    true
}

/// Classifies a meta command (a line starting with a dot): `.exit`,
/// `.constants` and `.btree` are known, the rest is not. What each one does
/// is the shell's business.
pub fn parse_meta_command(command: &str) -> (m: MetaCommand)
    ensures
        m == (if command.spec_bytes() == exit_command() {
            MetaCommand::MetaExit
        } else if command.spec_bytes() == constants_command() {
            MetaCommand::MetaConstants
        } else if command.spec_bytes() == btree_command() {
            MetaCommand::MetaBtree
        } else {
            MetaCommand::MetaUnknown
        }),
{
    let b = command.as_bytes();
    let mut exit_bytes: Vec<u8> = Vec::new();
    exit_bytes.push(46);
    exit_bytes.push(101);
    exit_bytes.push(120);
    exit_bytes.push(105);
    exit_bytes.push(116);
    proof {
        assert(exit_bytes@ =~= exit_command());
    }
    if bytes_equal(b, exit_bytes.as_slice()) {
        return MetaCommand::MetaExit;
    }
    let mut constants_bytes: Vec<u8> = Vec::new();
    constants_bytes.push(46);
    constants_bytes.push(99);
    constants_bytes.push(111);
    constants_bytes.push(110);
    constants_bytes.push(115);
    constants_bytes.push(116);
    constants_bytes.push(97);
    constants_bytes.push(110);
    constants_bytes.push(116);
    constants_bytes.push(115);
    proof {
        assert(constants_bytes@ =~= constants_command());
    }
    if bytes_equal(b, constants_bytes.as_slice()) {
        return MetaCommand::MetaConstants;
    }
    let mut btree_bytes: Vec<u8> = Vec::new();
    btree_bytes.push(46);
    btree_bytes.push(98);
    btree_bytes.push(116);
    btree_bytes.push(114);
    btree_bytes.push(101);
    btree_bytes.push(101);
    proof {
        assert(btree_bytes@ =~= btree_command());
    }
    if bytes_equal(b, btree_bytes.as_slice()) {
        return MetaCommand::MetaBtree;
    }
    MetaCommand::MetaUnknown
}

} // verus!
