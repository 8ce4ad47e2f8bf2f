//! Where the store keeps its files, and how often it takes a snapshot.

use vstd::prelude::*;
use vstd::string::*;
use crate::text;

verus! {

/// Configuration for persistence paths and thresholds.
pub struct StoreConfig {
    pub data_dir: String,
    /// How many log entries before a snapshot is due.
    pub snapshot_threshold: u64,
}

/// The path of a file in a directory.
pub open spec fn joined(dir: Seq<char>, name: Seq<char>) -> Seq<char> {
    if dir.len() == 0 {
        name
    } else if dir.last() == '/' {
        dir + name
    } else {
        dir + "/"@ + name
    }
}

/// The append-only log of a data directory.
pub open spec fn aol_file(dir: Seq<char>) -> Seq<char> {
    joined(dir, "appendonly.log"@)
}

/// The snapshot of a data directory.
pub open spec fn snapshot_file(dir: Seq<char>) -> Seq<char> {
    joined(dir, "snapshot.kvs"@)
}

/// The file in which the next snapshot of a data directory is written.
pub open spec fn snapshot_tmp_file(dir: Seq<char>) -> Seq<char> {
    joined(dir, "snapshot.kvs.tmp"@)
}

/// The path of a file in a directory.
pub fn join(dir: &str, name: &str) -> (r: String)
    ensures
        r@ == joined(dir@, name@),
{
    let chars: Vec<char> = text::chars_of(dir);
    if chars.len() == 0 {
        name.to_owned()
    } else if chars[chars.len() - 1] == '/' {
        text::concat(dir, name)
    } else {
        let mut out: String = text::concat(dir, "/");
        out.append(name);
        out
    }
}

impl StoreConfig {
    /// The files in `data_dir`, and a snapshot every thousand log entries.
    pub fn new(data_dir: &str) -> (r: StoreConfig)
        ensures
            r.data_dir@ == data_dir@,
            r.snapshot_threshold == 1000,
    {
        StoreConfig { data_dir: data_dir.to_owned(), snapshot_threshold: 1000 }
    }

    /// The append-only log.
    pub fn aol_path(&self) -> (r: String)
        ensures
            r@ == aol_file(self.data_dir@),
    {
        join(self.data_dir.as_str(), "appendonly.log")
    }

    /// The snapshot.
    pub fn snapshot_path(&self) -> (r: String)
        ensures
            r@ == snapshot_file(self.data_dir@),
    {
        join(self.data_dir.as_str(), "snapshot.kvs")
    }

    /// The file in which the next snapshot is written.
    pub fn snapshot_tmp_path(&self) -> (r: String)
        ensures
            r@ == snapshot_tmp_file(self.data_dir@),
    {
        join(self.data_dir.as_str(), "snapshot.kvs.tmp")
    }
}

/// Where the three files of a data directory are: behind the directory and one
/// slash, or at their bare names where there is no directory.
pub proof fn law_files_are_in_the_directory(dir: Seq<char>)
    ensures
        aol_file(Seq::empty()) == "appendonly.log"@,
        snapshot_file(Seq::empty()) == "snapshot.kvs"@,
        snapshot_tmp_file(Seq::empty()) == "snapshot.kvs.tmp"@,
        dir.len() > 0 && dir.last() != '/' ==> {
            &&& aol_file(dir) == dir + "/appendonly.log"@
            &&& snapshot_file(dir) == dir + "/snapshot.kvs"@
            &&& snapshot_tmp_file(dir) == dir + "/snapshot.kvs.tmp"@
            &&& aol_file(dir.push('/')) == aol_file(dir)
            &&& snapshot_file(dir.push('/')) == snapshot_file(dir)
            &&& snapshot_tmp_file(dir.push('/')) == snapshot_tmp_file(dir)
        },
        dir.len() > 0 && dir.last() == '/' ==> {
            &&& aol_file(dir) == dir + "appendonly.log"@
            &&& snapshot_file(dir) == dir + "snapshot.kvs"@
            &&& snapshot_tmp_file(dir) == dir + "snapshot.kvs.tmp"@
        },
{
    reveal_strlit("appendonly.log");
    reveal_strlit("snapshot.kvs");
    reveal_strlit("snapshot.kvs.tmp");
    reveal_strlit("/appendonly.log");
    reveal_strlit("/snapshot.kvs");
    reveal_strlit("/snapshot.kvs.tmp");
    reveal_strlit("/");
    assert("/"@ + "appendonly.log"@ =~= "/appendonly.log"@);
    assert("/"@ + "snapshot.kvs"@ =~= "/snapshot.kvs"@);
    assert("/"@ + "snapshot.kvs.tmp"@ =~= "/snapshot.kvs.tmp"@);
    if dir.len() > 0 && dir.last() != '/' {
        assert(dir.push('/') =~= dir + "/"@);
        assert(aol_file(dir) =~= dir + "/appendonly.log"@);
        assert(snapshot_file(dir) =~= dir + "/snapshot.kvs"@);
        assert(snapshot_tmp_file(dir) =~= dir + "/snapshot.kvs.tmp"@);
    }
}

/// The three files of a data directory are three different files.
pub proof fn law_files_are_distinct(dir: Seq<char>)
    ensures
        aol_file(dir) != snapshot_file(dir),
        aol_file(dir) != snapshot_tmp_file(dir),
        snapshot_file(dir) != snapshot_tmp_file(dir),
{
    reveal_strlit("appendonly.log");
    reveal_strlit("snapshot.kvs");
    reveal_strlit("snapshot.kvs.tmp");
    reveal_strlit("/");
    assert(aol_file(dir).last() == 'g');
    assert(snapshot_file(dir).last() == 's');
    assert(snapshot_tmp_file(dir).last() == 'p');
}

} // verus!
