//! S3 / S3-compatible object storage. This build carries no S3 client: the
//! backend connects to nothing and every operation reports that it is not
//! built in. The path rules that map a UI path onto object keys are here.

use vstd::prelude::*;

use crate::text::{owned, push_str, string_of, trim_start_char, trim_start_char_chars};
use crate::transport::{CallRecord, Progress, RemoteNode, Transport};
use crate::types::{Credentials, Entry, Error, Result};

verus! {

/// A UI path as an object-key prefix for listing: no leading slash, and a
/// trailing one unless empty.
pub open spec fn prefix_spec(path: Seq<char>) -> Seq<char> {
    let t = trim_start_char(path, '/');
    if t.len() == 0 || t.last() == '/' {
        t
    } else {
        t.push('/')
    }
}

/// A UI path as a bare object key (no leading slash).
pub open spec fn key_spec(path: Seq<char>) -> Seq<char> {
    trim_start_char(path, '/')
}

/// Normalize a UI path ("/photos") into a listing prefix ("photos/").
pub fn to_prefix(path: &str) -> (r: String)
    ensures
        r@ == prefix_spec(path@),
{
    let cs = crate::text::chars_of(path);
    let mut t = trim_start_char_chars(&cs, '/');
    if t.len() > 0 && t[t.len() - 1] != '/' {
        t.push('/');
    }
    string_of(t.as_slice())
}

/// Normalize a UI path into a bare object key (no leading slash).
pub fn to_key(path: &str) -> (r: String)
    ensures
        r@ == key_spec(path@),
{
    let cs = crate::text::chars_of(path);
    let t = trim_start_char_chars(&cs, '/');
    string_of(t.as_slice())
}

/// The S3 backend of this build, which has no S3 client.
#[derive(Debug)]
pub struct S3Transport;

impl S3Transport {
    /// Always refuses: the S3 client is not part of this build.
    pub fn connect(creds: &Credentials) -> (r: Result<Self>)
        ensures
            r matches Err(Error::NotImplemented(m)) && m@
                == "S3 backend not built (compile with --features s3)"@,
    {
        Err(Error::NotImplemented(owned("S3 backend not built (compile with --features s3)")))
    }
}

fn not_built(what: &str) -> (r: Error)
    ensures
        r matches Error::NotImplemented(m) && m@ == "S3 "@ + what@,
{
    let mut cs = crate::text::chars_of("S3 ");
    push_str(&mut cs, what);
    Error::NotImplemented(string_of(cs.as_slice()))
}

impl Transport for S3Transport {
    open spec fn tree(&self) -> Map<Seq<char>, RemoteNode> {
        Map::empty()
    }

    open spec fn unlisted(&self) -> Set<Seq<char>> {
        Set::full()
    }

    open spec fn calls(&self) -> Seq<CallRecord> {
        Seq::empty()
    }

    /// No call reaches a server, so there is nothing to record.
    open spec fn keeps_record(&self) -> bool {
        false
    }

    fn list_dir(&mut self, path: &str) -> (r: Result<Vec<Entry>>)
        ensures
            r matches Err(Error::NotImplemented(m)) && m@ == "S3 list_dir"@,
    {
        proof {
            reveal_strlit("S3 ");
            reveal_strlit("list_dir");
            reveal_strlit("S3 list_dir");
            assert(self.unlisted().insert(path@) =~= self.unlisted());
        }
        Err(not_built("list_dir"))
    }

    fn download_progress(&mut self, remote: &str, local: &str, progress: &mut dyn Progress) -> (r:
        Result<u64>)
        ensures
            r matches Err(Error::NotImplemented(m)) && m@ == "S3 download"@,
    {
        proof {
            reveal_strlit("S3 ");
            reveal_strlit("download");
            reveal_strlit("S3 download");
        }
        Err(not_built("download"))
    }

    fn upload_progress(&mut self, local: &str, remote: &str, progress: &mut dyn Progress) -> (r:
        Result<u64>)
        ensures
            r matches Err(Error::NotImplemented(m)) && m@ == "S3 upload"@,
    {
        proof {
            reveal_strlit("S3 ");
            reveal_strlit("upload");
            reveal_strlit("S3 upload");
        }
        Err(not_built("upload"))
    }

    fn mkdir(&mut self, path: &str) -> (r: Result<()>)
        ensures
            r matches Err(Error::NotImplemented(m)) && m@ == "S3 mkdir"@,
    {
        proof {
            reveal_strlit("S3 ");
            reveal_strlit("mkdir");
            reveal_strlit("S3 mkdir");
        }
        Err(not_built("mkdir"))
    }

    fn remove_file(&mut self, path: &str) -> (r: Result<()>)
        ensures
            r matches Err(Error::NotImplemented(m)) && m@ == "S3 remove_file"@,
    {
        proof {
            reveal_strlit("S3 ");
            reveal_strlit("remove_file");
            reveal_strlit("S3 remove_file");
        }
        Err(not_built("remove_file"))
    }

    fn remove_dir(&mut self, path: &str) -> (r: Result<()>)
        ensures
            r matches Err(Error::NotImplemented(m)) && m@ == "S3 remove_dir"@,
    {
        proof {
            reveal_strlit("S3 ");
            reveal_strlit("remove_dir");
            reveal_strlit("S3 remove_dir");
        }
        Err(not_built("remove_dir"))
    }

    fn rename(&mut self, from: &str, to: &str) -> (r: Result<()>)
        ensures
            r matches Err(Error::NotImplemented(m)) && m@ == "S3 rename"@,
    {
        proof {
            reveal_strlit("S3 ");
            reveal_strlit("rename");
            reveal_strlit("S3 rename");
        }
        Err(not_built("rename"))
    }
}

} // verus!
