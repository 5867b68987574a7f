use crate::compression::{pack_file, preamble, zlib_compressed};
use crate::hashing::WriteObject;
use crate::object_hash::{hex_lower, CommitHash, ObjectHash};
use vstd::prelude::*;
use vstd::slice::{slice_subrange, slice_to_vec};

verus! {

/// The loose file of an object: the name of its directory under `objects`,
/// its name in that directory, and its content.
#[derive(Debug)]
pub struct LooseFile {
    pub directory: Vec<u8>,
    pub name: Vec<u8>,
    pub content: Vec<u8>,
}

/// The directory and the name of the loose file of the object `hash`: the
/// first two of its 40 hexadecimal digits, and the other 38.
pub fn loose_path(hash: &ObjectHash) -> (path: (Vec<u8>, Vec<u8>))
    ensures
        path.0@ == hex_lower(hash@).take(2),
        path.1@ == hex_lower(hash@).skip(2),
{
    let text = hash.to_hex();
    let directory = slice_to_vec(slice_subrange(text.as_slice(), 0, 2));
    let name = slice_to_vec(slice_subrange(text.as_slice(), 2, 40));
    assert(name@ =~= hex_lower(hash@).skip(2));
    assert(directory@ =~= hex_lower(hash@).take(2));
    (directory, name)
}

/// The loose file that holds the object: it lies where the object's
/// identifier says, and its content is the zlib stream of the preamble
/// followed by the payload. Whoever writes it creates the file only if it
/// is not there.
pub fn write(object: &WriteObject) -> (file: LooseFile)
    ensures
        file.directory@ == hex_lower(object.spec_hash()@).take(2),
        file.name@ == hex_lower(object.spec_hash()@).skip(2),
        file.content@ == zlib_compressed(
            preamble(object.kind(), object.payload().len()) + object.payload(),
        ),
{
    let (directory, name) = loose_path(object.hash());
    let content = pack_file(object.prefix(), object.bytes());
    LooseFile { directory, name, content }
}

/// Whether the loose file of an object is to be created: not in a dry run,
/// and not where it is there already.
pub fn should_write(dry_run: bool, exists: bool) -> (create: bool)
    ensures
        create == (!dry_run && !exists),
{
    !dry_run && !exists
}

/// The line of the file of rewritten commits for one commit: the 40
/// hexadecimal digits of its old identifier, a space, those of its new
/// identifier, and a line feed.
pub fn write_rewritten_commits_file(old_hash: &CommitHash, new_hash: &CommitHash) -> (line: Vec<u8>)
    ensures
        line@ == hex_lower(old_hash@) + seq![32u8] + hex_lower(new_hash@) + seq![10u8],
{
    let mut line = old_hash.to_hex();
    line.push(32u8);
    let mut new_text = new_hash.to_hex();
    line.append(&mut new_text);
    line.push(10u8);
    assert(line@ =~= hex_lower(old_hash@) + seq![32u8] + hex_lower(new_hash@) + seq![10u8]);
    line
}

} // verus!
