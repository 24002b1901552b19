//! Whether a torrent is one file or several.

use vstd::prelude::*;

use super::info_dictionary_file::{InfoDictionaryFile, SpecFile};

verus! {

/// A single file of the given length, or several files concatenated in
/// list order.
#[derive(Debug)]
pub enum FileLayout {
    SingleFile(u64),
    MultiFile(Vec<InfoDictionaryFile>),
}

/// A layout, with its files as plain values.
pub enum SpecLayout {
    SingleFile(u64),
    MultiFile(Seq<SpecFile>),
}

/// The files of a list as plain values.
pub open spec fn files_view(files: Seq<InfoDictionaryFile>) -> Seq<SpecFile> {
    Seq::new(files.len(), |i: int| files[i]@)
}

impl View for FileLayout {
    type V = SpecLayout;

    open spec fn view(&self) -> SpecLayout {
        match self {
            FileLayout::SingleFile(l) => SpecLayout::SingleFile(*l),
            FileLayout::MultiFile(files) => SpecLayout::MultiFile(files_view(files@)),
        }
    }
}

/// The sum of the files' lengths.
pub open spec fn total_length(files: Seq<SpecFile>) -> nat
    decreases files.len(),
{
    if files.len() == 0 {
        0
    } else {
        total_length(files.drop_last()) + files.last().length as nat
    }
}

/// The length of the content: the file's, or the files' together.
pub open spec fn layout_length(l: SpecLayout) -> nat {
    match l {
        SpecLayout::SingleFile(n) => n as nat,
        SpecLayout::MultiFile(files) => total_length(files),
    }
}

/// A prefix of the files is no longer than all of them.
proof fn lemma_total_prefix(files: Seq<SpecFile>, k: int)
    requires
        0 <= k <= files.len(),
    ensures
        total_length(files.take(k)) <= total_length(files),
    decreases files.len(),
{
    if k < files.len() {
        let t = files.drop_last();
        assert(t.take(k) =~= files.take(k));
        lemma_total_prefix(t, k);
    } else {
        assert(files.take(k) =~= files);
    }
}

impl FileLayout {
    /// The length of the content, in bytes.
    pub fn length(&self) -> (r: u64)
        requires
            layout_length(self@) <= u64::MAX,
        ensures
            r == layout_length(self@),
    {
        match self {
            FileLayout::SingleFile(length) => *length,
            FileLayout::MultiFile(files) => {
                let ghost fs = files_view(files@);
                let mut sum: u64 = 0;
                let mut i: usize = 0;
                while i < files.len()
                    invariant
                        i <= files@.len(),
                        fs == files_view(files@),
                        total_length(fs) <= u64::MAX,
                        sum == total_length(fs.take(i as int)),
                    decreases files@.len() - i,
                {
                    assert(fs.take(i + 1).drop_last() =~= fs.take(i as int));
                    proof {
                        lemma_total_prefix(fs, i + 1);
                    }
                    sum = sum + files[i].length();
                    i = i + 1;
                }
                assert(fs.take(i as int) =~= fs);
                sum
            },
        }
    }

    /// The length of the content, in bytes, or `None` when the files
    /// together are longer than a `u64` can count.
    pub fn checked_length(&self) -> (r: Option<u64>)
        ensures
            match r {
                Some(n) => n == layout_length(self@),
                None => layout_length(self@) > u64::MAX,
            },
    {
        match self {
            FileLayout::SingleFile(length) => Some(*length),
            FileLayout::MultiFile(files) => {
                let ghost fs = files_view(files@);
                let mut sum: u64 = 0;
                let mut i: usize = 0;
                while i < files.len()
                    invariant
                        i <= files@.len(),
                        fs == files_view(files@),
                        layout_length(self@) == total_length(fs),
                        sum == total_length(fs.take(i as int)),
                    decreases files@.len() - i,
                {
                    assert(fs.take(i + 1).drop_last() =~= fs.take(i as int));
                    let len = files[i].length();
                    assert(total_length(fs.take(i + 1)) == sum + len);
                    match sum.checked_add(len) {
                        Some(t) => {
                            sum = t;
                        },
                        None => {
                            proof {
                                lemma_total_prefix(fs, i + 1);
                            }
                            return None;
                        },
                    }
                    i = i + 1;
                }
                assert(fs.take(i as int) =~= fs);
                Some(sum)
            },
        }
    }
}

} // verus!
