//! The argument lists handed to the C compiler and linker, computed from a
//! work instruction's fields: the subprocess itself runs outside the
//! library, on exactly these arguments.
use vstd::prelude::*;

use crate::strings::concat_str;
use crate::strings::lemma_push_deep_view;

verus! {

/// `-I <dir>` for every include directory, in order.
pub open spec fn spec_include_flags(dirs: Seq<Seq<char>>) -> Seq<Seq<char>>
    decreases dirs.len(),
{
    if dirs.len() == 0 {
        Seq::empty()
    } else {
        spec_include_flags(dirs.drop_last()) + seq!["-I"@, dirs.last()]
    }
}

/// `-l<name>` for every link library, in order.
pub open spec fn spec_link_flags(libs: Seq<Seq<char>>) -> Seq<Seq<char>>
    decreases libs.len(),
{
    if libs.len() == 0 {
        Seq::empty()
    } else {
        spec_link_flags(libs.drop_last()) + seq!["-l"@ + libs.last()]
    }
}

/// The compiler's argument list: the source, compile-only, the include
/// directories, then the output file.
pub open spec fn spec_compiler_argv(
    source: Seq<char>,
    dirs: Seq<Seq<char>>,
    out: Seq<char>,
) -> Seq<Seq<char>> {
    seq![source, "-c"@] + spec_include_flags(dirs) + seq!["-o"@, out]
}

/// The linker's argument list: the object files in order, the library
/// flags, then the output file.
pub open spec fn spec_linker_argv(
    objects: Seq<Seq<char>>,
    libs: Seq<Seq<char>>,
    out: Seq<char>,
) -> Seq<Seq<char>> {
    objects + spec_link_flags(libs) + seq!["-o"@, out]
}

/// The arguments of one compile invocation.
pub fn compiler_argv(source_file: &str, include_dirs: &Vec<String>, output_file: &str) -> (r: Vec<
    String,
>)
    ensures
        r.deep_view() == spec_compiler_argv(source_file@, include_dirs.deep_view(), output_file@),
{
    let mut r: Vec<String> = Vec::new();
    r.push(source_file.to_owned());
    r.push("-c".to_owned());
    let n = include_dirs.len();
    let mut k: usize = 0;
    while k < n
        invariant
            n == include_dirs@.len(),
            k <= n,
            r.deep_view() == seq![source_file@, "-c"@] + spec_include_flags(
                include_dirs.deep_view().take(k as int),
            ),
        decreases n - k,
    {
        let ghost r0 = r;
        let flag = "-I".to_owned();
        let ghost fg = flag;
        r.push(flag);
        let ghost r1 = r;
        let dir = include_dirs[k].clone();
        let ghost dg = dir;
        r.push(dir);
        proof {
            lemma_push_deep_view(r0, r1, fg);
            lemma_push_deep_view(r1, r, dg);
            assert(include_dirs.deep_view().take(k + 1).drop_last() =~= include_dirs.deep_view()
                .take(k as int));
            assert(r.deep_view() =~= seq![source_file@, "-c"@] + spec_include_flags(
                include_dirs.deep_view().take(k + 1),
            ));
        }
        k += 1;
    }
    proof {
        assert(include_dirs.deep_view().take(n as int) =~= include_dirs.deep_view());
    }
    let ghost r2 = r;
    let dash_o = "-o".to_owned();
    let ghost og = dash_o;
    r.push(dash_o);
    let ghost r3 = r;
    let out = output_file.to_owned();
    let ghost outg = out;
    r.push(out);
    proof {
        lemma_push_deep_view(r2, r3, og);
        lemma_push_deep_view(r3, r, outg);
        assert(r.deep_view() =~= spec_compiler_argv(
            source_file@,
            include_dirs.deep_view(),
            output_file@,
        ));
    }
    r
}

/// The arguments of one link invocation.
pub fn linker_argv(object_files: &Vec<String>, link_libraries: &Vec<String>, output_file: &str) -> (r: Vec<String>)
    ensures
        r.deep_view() == spec_linker_argv(
            object_files.deep_view(),
            link_libraries.deep_view(),
            output_file@,
        ),
{
    let mut r: Vec<String> = Vec::new();
    let n = object_files.len();
    let mut k: usize = 0;
    while k < n
        invariant
            n == object_files@.len(),
            k <= n,
            r.deep_view() == object_files.deep_view().take(k as int),
        decreases n - k,
    {
        let ghost r0 = r;
        let obj = object_files[k].clone();
        let ghost og = obj;
        r.push(obj);
        proof {
            lemma_push_deep_view(r0, r, og);
            assert(r.deep_view() =~= object_files.deep_view().take(k + 1));
        }
        k += 1;
    }
    proof {
        assert(object_files.deep_view().take(n as int) =~= object_files.deep_view());
    }
    let m = link_libraries.len();
    let mut j: usize = 0;
    while j < m
        invariant
            m == link_libraries@.len(),
            j <= m,
            r.deep_view() == object_files.deep_view() + spec_link_flags(
                link_libraries.deep_view().take(j as int),
            ),
        decreases m - j,
    {
        let ghost r0 = r;
        let flag = concat_str("-l", link_libraries[j].as_str());
        let ghost fg = flag;
        r.push(flag);
        proof {
            lemma_push_deep_view(r0, r, fg);
            assert(link_libraries.deep_view().take(j + 1).drop_last() =~= link_libraries
                .deep_view().take(j as int));
            assert(r.deep_view() =~= object_files.deep_view() + spec_link_flags(
                link_libraries.deep_view().take(j + 1),
            ));
        }
        j += 1;
    }
    proof {
        assert(link_libraries.deep_view().take(m as int) =~= link_libraries.deep_view());
    }
    let ghost r2 = r;
    let dash_o = "-o".to_owned();
    let ghost og2 = dash_o;
    r.push(dash_o);
    let ghost r3 = r;
    let out = output_file.to_owned();
    let ghost outg = out;
    r.push(out);
    proof {
        lemma_push_deep_view(r2, r3, og2);
        lemma_push_deep_view(r3, r, outg);
        assert(r.deep_view() =~= spec_linker_argv(
            object_files.deep_view(),
            link_libraries.deep_view(),
            output_file@,
        ));
    }
    r
}

/// At most the first `limit` characters of `s`: how a linker diagnostic is
/// bounded before it is reported.
pub fn truncate_chars(s: &str, limit: usize) -> (r: String)
    ensures
        r@ == s@.take(if s@.len() < limit {
            s@.len() as int
        } else {
            limit as int
        }),
{
    let n = s.unicode_len();
    let end = if n < limit {
        n
    } else {
        limit
    };
    let sub = s.substring_char(0, end);
    proof {
        assert(s@.subrange(0, end as int) =~= s@.take(end as int));
    }
    sub.to_owned()
}

} // verus!
