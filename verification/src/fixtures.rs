//! Program sources that exercise the memory intrinsics, and a counter of scope reads for
//! measuring how often planning walks the scope tree.
use vstd::prelude::*;

use crate::text::enclose;

verus! {

/// The program around a `main` body that prepares memory writes.
pub open spec fn preparation_text(body: Seq<char>, output: Seq<char>) -> Seq<char> {
    "\nmodule app.main;\nimport std.memory.{prepare_put, prepare_delete, operation_ref, Any, Missing, Exists, Match};\nimport std.runtime.checkpoint;\nalias Schema = MemoryRegion<{ Items: Store<string, string> }>;\nlet Region = std.memory.region<Schema>(stable_id = \"intent-region\", store = \"intent-test\");\nflow main() -> "@
        + output + " ![Error<StorageError>] { "@ + body + " }\n"@
}

/// The program around a `main` body that commits prepared memory writes.
pub open spec fn commit_text(body: Seq<char>, output: Seq<char>) -> Seq<char> {
    "\nmodule app.main;\nimport std.memory.{prepare_put, prepare_delete, operation_ref, commit, reconcile, Missing, Any};\nimport std.runtime.checkpoint;\nalias Schema = MemoryRegion<{ Items: Store<string, string> }>;\nlet Region = std.memory.region<Schema>(stable_id = \"source-commit\", store = \"test\");\nflow submit<Key, Value>(intent: MemoryWriteIntent<Key, Value>) -> WriteOutcome<MemoryWriteReceipt<Key>, MemoryWriteRejection> {\n    return commit(intent);\n}\nflow main() -> "@
        + output + " { "@ + body + " }\n"@
}

/// A program whose `main` returns `output` and prepares memory writes in `body`.
pub fn preparation_source(body: &str, output: &str) -> (s: String)
    ensures
        s@ == preparation_text(body@, output@),
{
    let head = enclose(
        "\nmodule app.main;\nimport std.memory.{prepare_put, prepare_delete, operation_ref, Any, Missing, Exists, Match};\nimport std.runtime.checkpoint;\nalias Schema = MemoryRegion<{ Items: Store<string, string> }>;\nlet Region = std.memory.region<Schema>(stable_id = \"intent-region\", store = \"intent-test\");\nflow main() -> ",
        output,
        " ![Error<StorageError>] { ",
    );
    let s = enclose(head.as_str(), body, " }\n");
    proof {
        assert(s@ =~= preparation_text(body@, output@));
    }
    s
}

/// A program whose `main` returns `output` and commits memory writes in `body`.
pub fn source(body: &str, output: &str) -> (s: String)
    ensures
        s@ == commit_text(body@, output@),
{
    let head = enclose(
        "\nmodule app.main;\nimport std.memory.{prepare_put, prepare_delete, operation_ref, commit, reconcile, Missing, Any};\nimport std.runtime.checkpoint;\nalias Schema = MemoryRegion<{ Items: Store<string, string> }>;\nlet Region = std.memory.region<Schema>(stable_id = \"source-commit\", store = \"test\");\nflow submit<Key, Value>(intent: MemoryWriteIntent<Key, Value>) -> WriteOutcome<MemoryWriteReceipt<Key>, MemoryWriteRejection> {\n    return commit(intent);\n}\nflow main() -> ",
        output,
        " { ",
    );
    let s = enclose(head.as_str(), body, " }\n");
    proof {
        assert(s@ =~= commit_text(body@, output@));
    }
    s
}

/// How many scopes planning has read.
pub struct ScopeReads {
    pub count: usize,
}

impl ScopeReads {
    /// Counts one more scope read.
    pub fn record_scope_read(&mut self)
        requires
            old(self).count < usize::MAX,
        ensures
            final(self).count == old(self).count + 1,
    {
        self.count = self.count + 1;
    }
}

} // verus!
