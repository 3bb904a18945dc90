//! The in-memory side of directory listings: a `DirReader` holds the file
//! paths found in a directory and answers queries over them. Reading the
//! filesystem itself happens outside the library; a listing is handed in as
//! plain values.
use vstd::prelude::*;

use crate::strings::ends_with_str;
use crate::strings::lemma_push_deep_view;
use crate::strings::spec_ends_with;

verus! {

/// The files of `files` that end with `.` followed by `ext`, in order.
pub open spec fn spec_files_with_extension(files: Seq<Seq<char>>, ext: Seq<char>) -> Seq<Seq<char>>
    decreases files.len(),
{
    if files.len() == 0 {
        Seq::empty()
    } else {
        spec_files_with_extension(files.drop_last(), ext) + (if spec_ends_with(
            files.last(),
            seq!['.'] + ext,
        ) {
            seq![files.last()]
        } else {
            Seq::empty()
        })
    }
}

/// A directory listing: the paths of the files a directory holds.
#[derive(Debug)]
pub struct DirReader {
    pub files: Vec<String>,
}

impl View for DirReader {
    type V = Seq<Seq<char>>;

    open spec fn view(&self) -> Seq<Seq<char>> {
        self.files.deep_view()
    }
}

impl DirReader {
    /// A listing over the given file paths.
    pub fn from_files(files: Vec<String>) -> (r: DirReader)
        ensures
            r@ == files.deep_view(),
    {
        DirReader { files }
    }

    /// All files of the listing whose name ends in `.` followed by the given
    /// extension, in listing order.
    pub fn get_files_with_extension(&self, extension: &str) -> (r: Vec<String>)
        ensures
            r.deep_view() == spec_files_with_extension(self@, extension@),
    {
        let mut dot_ext: String = ".".to_owned();
        dot_ext.append(extension);
        proof {
            reveal_strlit(".");
            assert("."@ =~= seq!['.']);
            assert(dot_ext@ == seq!['.'] + extension@);
        }
        let n = self.files.len();
        let mut r: Vec<String> = Vec::new();
        let mut j: usize = 0;
        while j < n
            invariant
                n == self.files@.len(),
                j <= n,
                dot_ext@ == seq!['.'] + extension@,
                r.deep_view() == spec_files_with_extension(self@.take(j as int), extension@),
            decreases n - j,
        {
            proof {
                assert(self@.take(j + 1).drop_last() =~= self@.take(j as int));
                assert(self@.take(j + 1).last() == self@[j as int]);
                assert(self.files@[j as int]@ == self@[j as int]);
            }
            if ends_with_str(self.files[j].as_str(), dot_ext.as_str()) {
                let ghost r0 = r;
                let x = self.files[j].clone();
                let ghost xg = x;
                r.push(x);
                proof {
                    lemma_push_deep_view(r0, r, xg);
                    assert(r.deep_view() =~= spec_files_with_extension(
                        self@.take(j + 1),
                        extension@,
                    ));
                }
            }
            j += 1;
        }
        proof {
            assert(self@.take(n as int) =~= self@);
        }
        r
    }
}

} // verus!
