//! A manifest is a list of file names, each ended or separated by a NUL byte.
use vstd::prelude::*;
use vstd::utf8::{encode_utf8, valid_utf8};
use crate::count::utf8_str;

verus! {

/// Splits `b` at every NUL byte into one more piece than it has NULs.
pub open spec fn split_at_nul(b: Seq<u8>) -> Seq<Seq<u8>>
    decreases b.len(),
{
    if b.len() == 0 {
        seq![Seq::<u8>::empty()]
    } else {
        let p = split_at_nul(b.drop_last());
        if b.last() == 0 {
            p.push(Seq::<u8>::empty())
        } else {
            p.update(p.len() - 1, p.last().push(b.last()))
        }
    }
}

/// The names a manifest holds: the pieces between NULs, where a final NUL
/// ends the last name rather than starting an empty one.
pub open spec fn manifest_names(b: Seq<u8>) -> Seq<Seq<u8>> {
    let p = split_at_nul(b);
    if b.len() == 0 || b.last() == 0 {
        p.drop_last()
    } else {
        p
    }
}

/// Why a manifest could not be read.
#[derive(Clone, Copy, Debug, PartialEq, Eq, Structural)]
pub enum ManifestError {
    /// The name at this position is not valid UTF-8.
    InvalidName { index: usize },
}

proof fn lemma_split_nonempty(b: Seq<u8>)
    ensures
        split_at_nul(b).len() >= 1,
    decreases b.len(),
{
    if b.len() > 0 {
        lemma_split_nonempty(b.drop_last());
    }
}

/// Pieces already closed by a NUL in a prefix stay the same in the whole.
proof fn lemma_split_prefix(b: Seq<u8>, i: int)
    requires
        0 <= i <= b.len(),
    ensures
        split_at_nul(b.take(i)).len() <= split_at_nul(b).len(),
        forall|j: int|
            0 <= j < split_at_nul(b.take(i)).len() - 1 ==> #[trigger] split_at_nul(b)[j]
                == split_at_nul(b.take(i))[j],
    decreases b.len(),
{
    if i < b.len() {
        assert(b.drop_last().take(i) =~= b.take(i));
        lemma_split_prefix(b.drop_last(), i);
        lemma_split_nonempty(b.drop_last());
    } else {
        assert(b.take(i) =~= b);
    }
}

/// Reads the NUL-separated names of a manifest, in order; fails on the
/// first name that is not valid UTF-8.
pub fn read_null_separated(bytes: &[u8]) -> (r: Result<Vec<String>, ManifestError>)
    ensures
        r is Ok <==> forall|j: int|
            0 <= j < manifest_names(bytes@).len() ==> valid_utf8(#[trigger] manifest_names(bytes@)[j]),
        r matches Ok(v) ==> {
            &&& v.len() == manifest_names(bytes@).len()
            &&& forall|j: int|
                0 <= j < v.len() ==> encode_utf8((#[trigger] v[j])@) == manifest_names(bytes@)[j]
        },
        r matches Err(ManifestError::InvalidName { index }) ==> {
            &&& index < manifest_names(bytes@).len()
            &&& !valid_utf8(manifest_names(bytes@)[index as int])
        },
{
    let ghost b = bytes@;
    let mut names: Vec<String> = Vec::new();
    let mut cur: Vec<u8> = Vec::new();
    let mut i: usize = 0;
    proof {
        assert(b.take(0) =~= Seq::<u8>::empty());
    }
    while i < bytes.len()
        invariant
            b == bytes@,
            0 <= i <= b.len(),
            split_at_nul(b.take(i as int)).len() == names.len() + 1,
            cur@ == split_at_nul(b.take(i as int)).last(),
            forall|j: int| 0 <= j < names.len() ==> valid_utf8(#[trigger] split_at_nul(b.take(i as int))[j]),
            forall|j: int|
                0 <= j < names.len() ==> encode_utf8((#[trigger] names[j])@) == split_at_nul(b.take(i as int))[j],
        decreases b.len() - i,
    {
        proof {
            assert(b.take(i + 1).drop_last() =~= b.take(i as int));
        }
        let x = bytes[i];
        if x == 0 {
            let piece = cur;
            cur = Vec::new();
            match utf8_str(piece.as_slice()) {
                Some(name) => {
                    names.push(name.to_owned());
                },
                None => {
                    proof {
                        lemma_split_prefix(b, i + 1);
                        assert(split_at_nul(b.take(i + 1))[names.len() as int] == split_at_nul(b.take(i as int)).last());
                        assert(manifest_names(b).len() >= names.len() + 1);
                        assert(!valid_utf8(manifest_names(b)[names.len() as int]));
                    }
                    return Err(ManifestError::InvalidName { index: names.len() });
                },
            }
        } else {
            cur.push(x);
            proof {
                assert(cur@ =~= split_at_nul(b.take(i + 1)).last());
            }
        }
        i = i + 1;
    }
    proof {
        assert(b.take(b.len() as int) =~= b);
    }
    if bytes.len() > 0 && bytes[bytes.len() - 1] != 0 {
        let k = names.len();
        match utf8_str(cur.as_slice()) {
            Some(name) => {
                names.push(name.to_owned());
            },
            None => {
                proof {
                    assert(!valid_utf8(manifest_names(b)[k as int]));
                }
                return Err(ManifestError::InvalidName { index: k });
            },
        }
    }
    proof {
        assert(names@.len() == manifest_names(b).len());
    }
    Ok(names)
}

/// A NUL after the last name changes nothing: it ends that name.
pub proof fn lemma_trailing_nul(b: Seq<u8>)
    requires
        b.len() > 0,
        b.last() != 0,
    ensures
        manifest_names(b.push(0)) == manifest_names(b),
{
    assert(b.push(0).drop_last() =~= b);
    assert(split_at_nul(b.push(0)).drop_last() =~= split_at_nul(b));
}

} // verus!
