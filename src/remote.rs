//! Remote paths and the shell commands a run sends to the remote host.
use vstd::prelude::*;
use vstd::utf8::encode_utf8;
use crate::text::extend_bytes;

verus! {

/// `name` under the relative directory `parent`; at the root, `name` alone.
pub open spec fn join_spec(parent: Seq<u8>, name: Seq<u8>) -> Seq<u8> {
    if parent.len() == 0 {
        name
    } else {
        parent + seq![47u8] + name
    }
}

/// Where the relative path `rel` lands under the deploy directory.
pub open spec fn remote_path_spec(deploy_dir: Seq<u8>, rel: Seq<u8>) -> Seq<u8> {
    deploy_dir + seq![47u8] + rel
}

/// The relative path of `name` inside the relative directory `parent`.
pub fn join_relative(parent: &[u8], name: &[u8]) -> (r: Vec<u8>)
    ensures
        r@ == join_spec(parent@, name@),
{
    let mut out: Vec<u8> = Vec::new();
    if parent.len() > 0 {
        extend_bytes(&mut out, parent);
        out.push(47u8);
    }
    extend_bytes(&mut out, name);
    assert(out@ =~= join_spec(parent@, name@));
    out
}

/// The remote path of the relative path `rel`.
pub fn remote_path(deploy_dir: &[u8], rel: &[u8]) -> (r: Vec<u8>)
    ensures
        r@ == remote_path_spec(deploy_dir@, rel@),
{
    let mut out: Vec<u8> = Vec::new();
    extend_bytes(&mut out, deploy_dir);
    out.push(47u8);
    extend_bytes(&mut out, rel);
    assert(out@ =~= remote_path_spec(deploy_dir@, rel@));
    out
}

/// `mkdir -p <deploy_dir>/<rel>`: makes a remote directory and its parents.
pub fn mkdir_command(deploy_dir: &[u8], rel: &[u8]) -> (r: Vec<u8>)
    ensures
        r@ == encode_utf8("mkdir -p "@) + remote_path_spec(deploy_dir@, rel@),
{
    let mut out = "mkdir -p ".as_bytes_vec();
    let p = remote_path(deploy_dir, rel);
    extend_bytes(&mut out, p.as_slice());
    out
}

/// `rm -f <deploy_dir>/<rel>`: removes one remote file.
pub fn delete_command(deploy_dir: &[u8], rel: &[u8]) -> (r: Vec<u8>)
    ensures
        r@ == encode_utf8("rm -f "@) + remote_path_spec(deploy_dir@, rel@),
{
    let mut out = "rm -f ".as_bytes_vec();
    let p = remote_path(deploy_dir, rel);
    extend_bytes(&mut out, p.as_slice());
    out
}

/// `rm -rf <deploy_dir>/*`: empties the deploy directory.
pub fn purge_command(deploy_dir: &[u8]) -> (r: Vec<u8>)
    ensures
        r@ == encode_utf8("rm -rf "@) + deploy_dir@ + encode_utf8("/*"@),
{
    let mut out = "rm -rf ".as_bytes_vec();
    extend_bytes(&mut out, deploy_dir);
    let tail = "/*".as_bytes_vec();
    extend_bytes(&mut out, tail.as_slice());
    out
}

/// `mkdir -p <record_dir> && touch <record_file>`: makes an empty record
/// file where none was.
pub fn create_record_command(record_dir: &[u8], record_file: &[u8]) -> (r: Vec<u8>)
    ensures
        r@ == encode_utf8("mkdir -p "@) + record_dir@ + encode_utf8(" && touch "@) + record_file@,
{
    let mut out = "mkdir -p ".as_bytes_vec();
    extend_bytes(&mut out, record_dir);
    let mid = " && touch ".as_bytes_vec();
    extend_bytes(&mut out, mid.as_slice());
    extend_bytes(&mut out, record_file);
    out
}

} // verus!
