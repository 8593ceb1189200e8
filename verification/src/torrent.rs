//! What a torrent says of the files in it.

use vstd::prelude::*;

verus! {

/// A file of a torrent.
#[derive(Debug)]
pub struct File {
    /// Its length in bytes.
    pub length: usize,
    /// The directories that lead to it, and its name.
    pub path: Vec<String>,
}

/// The files of a torrent.
#[derive(Debug)]
pub enum Keys {
    /// One file, which has the torrent's name.
    SingleFile { length: usize },
    /// Several files.
    MultiFile { files: Vec<File> },
}

/// The lengths of some files, added up.
pub open spec fn lengths_of(files: Seq<File>) -> int
    decreases files.len(),
{
    if files.len() == 0 {
        0
    } else {
        lengths_of(files.drop_last()) + files.last().length
    }
}

/// The length of all files of a torrent together.
pub open spec fn total_of(keys: Keys) -> int {
    match keys {
        Keys::SingleFile { length } => length as int,
        Keys::MultiFile { files } => lengths_of(files@),
    }
}

proof fn first_lengths_are_less(files: Seq<File>, n: int)
    requires
        0 <= n <= files.len(),
    ensures
        0 <= lengths_of(files.take(n)) <= lengths_of(files),
    decreases files.len(),
{
    if n == files.len() {
        assert(files.take(n) =~= files);
        if n > 0 {
            first_lengths_are_less(files.drop_last(), n - 1);
        }
    } else {
        first_lengths_are_less(files.drop_last(), n);
        assert(files.drop_last().take(n) =~= files.take(n));
    }
}

/// Whether `files` are the files of a torrent named `name`.
pub open spec fn are_files_of(files: Seq<File>, keys: Keys, name: Seq<char>) -> bool {
    match keys {
        Keys::SingleFile { length } => {
            &&& files.len() == 1
            &&& files[0].length == length
            &&& files[0].path@.len() == 1
            &&& files[0].path@[0]@ == name
        },
        Keys::MultiFile { files: listed } => files == listed@,
    }
}

impl Keys {
    /// The length of the one file, if there is no more than one.
    pub fn single_length(&self) -> (length: Option<usize>)
        ensures
            match *self {
                Keys::SingleFile { length: n } => length == Some(n),
                Keys::MultiFile { .. } => length is None,
            },
    {
        match self {
            Keys::SingleFile { length } => Some(*length),
            Keys::MultiFile { .. } => None,
        }
    }

    /// The length of all files together, if it fits in the machine's word.
    pub fn total_length(&self) -> (total: Option<usize>)
        ensures
            total is Some <==> total_of(*self) <= usize::MAX,
            total is Some ==> total->0 == total_of(*self),
    {
        match self {
            Keys::SingleFile { length } => Some(*length),
            Keys::MultiFile { files } => {
                let mut total: usize = 0;
                let mut i: usize = 0;
                assert(files@.take(0) =~= Seq::<File>::empty());
                while i < files.len()
                    invariant
                        i <= files@.len(),
                        total_of(*self) == lengths_of(files@),
                        total == lengths_of(files@.take(i as int)),
                    decreases files@.len() - i,
                {
                    proof {
                        assert(files@.take(i + 1).drop_last() =~= files@.take(i as int));
                        first_lengths_are_less(files@, i + 1);
                    }
                    match total.checked_add(files[i].length) {
                        None => {
                            return None;
                        },
                        Some(sum) => {
                            total = sum;
                        },
                    }
                    i = i + 1;
                }
                assert(files@.take(i as int) =~= files@);
                Some(total)
            },
        }
    }

    /// The files of a torrent named `name`.
    pub fn into_files(self, name: String) -> (files: Vec<File>)
        ensures
            are_files_of(files@, self, name@),
    {
        match self {
            Keys::SingleFile { length } => {
                let mut path: Vec<String> = Vec::new();
                path.push(name);
                let mut files: Vec<File> = Vec::new();
                files.push(File { length, path });
                files
            },
            Keys::MultiFile { files } => files,
        }
    }
}

/// The length of piece `piece_i` of a torrent of `length` bytes in `npieces` pieces, of which
/// all but the last are of `plength` bytes.
pub open spec fn piece_length(piece_i: int, npieces: int, length: int, plength: int) -> int {
    if piece_i == npieces - 1 && length % plength != 0 {
        length % plength
    } else {
        plength
    }
}

/// The length of piece `piece_i` of a torrent of `length` bytes in `npieces` pieces, of which
/// all but the last are of `plength` bytes.
pub fn length_of_piece(piece_i: usize, npieces: usize, length: usize, plength: usize) -> (n: usize)
    requires
        piece_i < npieces,
        plength > 0,
    ensures
        n == piece_length(piece_i as int, npieces as int, length as int, plength as int),
{
    let md: usize = length % plength;
    if piece_i == npieces - 1 && md != 0 {
        md
    } else {
        plength
    }
}

/// The pieces of a torrent lie one behind the other: each begins where the one before it
/// ends, and the last ends where the torrent ends.
pub proof fn law_pieces_tile_the_torrent(piece_i: int, npieces: int, length: int, plength: int)
    requires
        0 < plength,
        0 < length,
        (npieces - 1) * plength < length <= npieces * plength,
        0 <= piece_i < npieces,
    ensures
        ({
            let end = piece_i * plength + piece_length(piece_i, npieces, length, plength);
            &&& 0 < piece_length(piece_i, npieces, length, plength) <= plength
            &&& piece_i + 1 < npieces ==> end == (piece_i + 1) * plength
            &&& piece_i + 1 == npieces ==> end == length
        }),
{
    let last = length - (npieces - 1) * plength;
    assert((piece_i + 1) * plength == piece_i * plength + plength) by (nonlinear_arith);
    assert(npieces * plength == (npieces - 1) * plength + plength) by (nonlinear_arith);
    vstd::arithmetic::div_mod::lemma_mod_multiples_vanish(npieces - 1, last, plength);
    assert((npieces - 1) * plength == plength * (npieces - 1)) by (nonlinear_arith);
    if last == plength {
        vstd::arithmetic::div_mod::lemma_mod_self_0(plength);
    } else {
        vstd::arithmetic::div_mod::lemma_small_mod(last as nat, plength as nat);
    }
}

/// Hash `k` in bytes that hold hashes one behind the other.
pub open spec fn hash_at(bytes: Seq<u8>, k: int) -> Seq<u8> {
    bytes.subrange(20 * k, 20 * k + 20)
}

/// The hashes of 20 bytes each that stand in `bytes` one behind the other, if nothing is
/// left over.
pub fn split_hashes(bytes: &[u8]) -> (hashes: Option<Vec<[u8; 20]>>)
    ensures
        hashes is Some <==> bytes@.len() % 20 == 0,
        hashes is Some ==> 20 * hashes->0@.len() == bytes@.len() && forall|k: int|
            0 <= k < hashes->0@.len() ==> (#[trigger] hashes->0@[k])@ == hash_at(bytes@, k),
{
    if bytes.len() % 20 != 0 {
        return None;
    }
    let mut hashes: Vec<[u8; 20]> = Vec::new();
    let mut at: usize = 0;
    while at < bytes.len()
        invariant
            at <= bytes@.len(),
            bytes@.len() % 20 == 0,
            at == 20 * hashes@.len(),
            forall|k: int|
                0 <= k < hashes@.len() ==> (#[trigger] hashes@[k])@ == hash_at(bytes@, k),
        decreases bytes@.len() - at,
    {
        let mut hash: [u8; 20] = [0;20];
        let mut i: usize = 0;
        while i < 20
            invariant
                i <= 20,
                at + 20 <= bytes@.len() == bytes.len(),
                forall|j: int| 0 <= j < i ==> hash@[j] == bytes@[at + j],
            decreases 20 - i,
        {
            hash[i] = bytes[at + i];
            i = i + 1;
        }
        assert(hash@ =~= hash_at(bytes@, hashes@.len() as int));
        hashes.push(hash);
        at = at + 20;
    }
    Some(hashes)
}

/// The lengths of files add up, one by one.
pub proof fn law_lengths_add_up(files: Seq<File>, file: File)
    ensures
        lengths_of(Seq::empty()) == 0,
        lengths_of(files.push(file)) == lengths_of(files) + file.length,
{
    assert(files.push(file).drop_last() =~= files);
}

/// A torrent is as long as its one file, or as its files together.
pub proof fn law_total_is_that_of_the_files(keys: Keys, files: Seq<File>, name: Seq<char>)
    requires
        are_files_of(files, keys, name),
    ensures
        total_of(keys) == lengths_of(files),
{
    if let Keys::SingleFile { length } = keys {
        assert(files.drop_last() =~= Seq::<File>::empty());
        law_lengths_add_up(files.drop_last(), files[0]);
    }
}

/// The files of a torrent are the one that has its name and its length, or those that are
/// listed, in their order.
pub proof fn law_files_of_a_torrent(keys: Keys, files: Seq<File>, name: Seq<char>, i: int)
    requires
        are_files_of(files, keys, name),
    ensures
        keys matches Keys::SingleFile { length } ==> files.len() == 1 && files[0].length == length
            && files[0].path@.len() == 1 && files[0].path@[0]@ == name,
        keys matches Keys::MultiFile { files: listed } ==> files.len() == listed@.len() && (0 <= i
            < files.len() ==> files[i] == listed@[i]),
{
}

/// A piece has as many bytes of the torrent as are left from its begin on, but no more than
/// the torrent gives for its pieces. All but the last have just as many.
pub proof fn law_piece_has_what_is_left(piece_i: int, npieces: int, length: int, plength: int)
    requires
        0 < plength,
        0 < length,
        0 <= piece_i < npieces,
    ensures
        piece_i < npieces - 1 ==> piece_length(piece_i, npieces, length, plength) == plength,
        0 < piece_length(piece_i, npieces, length, plength) <= plength,
        (npieces - 1) * plength < length <= npieces * plength ==> piece_length(
            piece_i,
            npieces,
            length,
            plength,
        ) == if plength <= length - piece_i * plength {
            plength
        } else {
            length - piece_i * plength
        },
{
    vstd::arithmetic::div_mod::lemma_mod_bound(length, plength);
    if (npieces - 1) * plength < length <= npieces * plength {
        law_pieces_tile_the_torrent(piece_i, npieces, length, plength);
        assert(piece_i + 1 < npieces ==> (piece_i + 1) * plength <= (npieces - 1) * plength)
            by (nonlinear_arith)
            requires
                0 < plength,
        ;
        assert((piece_i + 1) * plength == piece_i * plength + plength) by (nonlinear_arith);
    }
}

/// Hashes, one behind the other.
pub open spec fn hashes_joined(hashes: Seq<[u8; 20]>) -> Seq<u8>
    decreases hashes.len(),
{
    if hashes.len() == 0 {
        seq![]
    } else {
        hashes_joined(hashes.drop_last()) + hashes.last()@
    }
}

/// Hashes that stand one behind the other are read as they are, in their order.
pub proof fn law_hashes_read_back(hashes: Seq<[u8; 20]>, k: int)
    ensures
        hashes_joined(hashes).len() == 20 * hashes.len(),
        0 <= k < hashes.len() ==> hash_at(hashes_joined(hashes), k) == hashes[k]@,
    decreases hashes.len(),
{
    if hashes.len() > 0 {
        let front = hashes_joined(hashes.drop_last());
        let all = hashes_joined(hashes);
        law_hashes_read_back(hashes.drop_last(), k);
        if k == hashes.len() - 1 {
            assert(hash_at(all, k) =~= hashes[k]@);
        } else if 0 <= k < hashes.len() {
            assert(hash_at(all, k) =~= hash_at(front, k));
        }
    }
}

} // verus!
