//! Project skeleton contents and the clean operation's arithmetic.
//!
//! The skeleton files a fresh project gets are fixed texts (the project
//! manifest takes the project's name); writing them to disk is the
//! surrounding program's business, as is walking the output directory —
//! the clean summary is computed here from the flat list of file sizes.

use vstd::prelude::*;
use vstd::string::StringExecFns;

verus! {

/// The project manifest a fresh project starts with, carrying the
/// project's name.
pub fn create_asterisk_yml(project_name: &str) -> (content: String)
    ensures
        content@ == "package:\n  name: "@ + project_name@
            + "\n  version: 0.1.0\n\ndependencies:\n  # Add your dependencies here\n"@,
{
    let mut content = "package:\n  name: ".to_owned();
    content.append(project_name);
    content.append("\n  version: 0.1.0\n\ndependencies:\n  # Add your dependencies here\n");
    content
}

/// The ignore file a fresh project starts with: the build output
/// directory is kept out of version control.
pub fn create_gitignore() -> (content: String)
    ensures
        content@ == "/output\n"@,
{
    "/output\n".to_owned()
}

/// The starting source file of a fresh project.
pub fn main_rs_template() -> (content: String)
    ensures
        content@ == "fn main() {\n    println!(\"Hello, world!\");\n}\n"@,
{
    "fn main() {\n    println!(\"Hello, world!\");\n}\n".to_owned()
}

/// The sum of a list of sizes.
pub open spec fn sum_of(sizes: Seq<u64>) -> int
    decreases sizes.len(),
{
    if sizes.len() == 0 {
        0
    } else {
        sum_of(sizes.drop_last()) + sizes.last()
    }
}

proof fn lemma_sum_prefix_le(sizes: Seq<u64>, i: int)
    requires
        0 <= i <= sizes.len(),
    ensures
        sum_of(sizes.subrange(0, i)) <= sum_of(sizes),
        sum_of(sizes.subrange(0, i)) >= 0,
    decreases sizes.len() - i,
{
    if i == sizes.len() {
        assert(sizes.subrange(0, i) =~= sizes);
        lemma_sum_nonneg(sizes);
    } else {
        lemma_sum_prefix_le(sizes, i + 1);
        assert(sizes.subrange(0, i + 1).drop_last() =~= sizes.subrange(0, i));
        lemma_sum_nonneg(sizes.subrange(0, i));
    }
}

proof fn lemma_sum_nonneg(sizes: Seq<u64>)
    ensures
        sum_of(sizes) >= 0,
    decreases sizes.len(),
{
    if sizes.len() > 0 {
        lemma_sum_nonneg(sizes.drop_last());
    }
}

/// Sums the sizes of the files under the output directory and counts
/// them: what the clean operation reports as freed space.
pub fn tally_files(sizes: &Vec<u64>) -> (tally: (u64, u64))
    requires
        sum_of(sizes@) <= u64::MAX,
        sizes@.len() <= u64::MAX,
    ensures
        tally.0 == sum_of(sizes@),
        tally.1 == sizes@.len(),
{
    let n = sizes.len();
    let mut total: u64 = 0;
    let mut i: usize = 0;
    proof {
        assert(sizes@.subrange(0, 0) =~= Seq::<u64>::empty());
    }
    while i < n
        invariant
            0 <= i <= n,
            n == sizes@.len(),
            sum_of(sizes@) <= u64::MAX,
            total == sum_of(sizes@.subrange(0, i as int)),
        decreases n - i,
    {
        proof {
            lemma_sum_prefix_le(sizes@, i + 1);
            assert(sizes@.subrange(0, i + 1).drop_last() =~= sizes@.subrange(0, i as int));
        }
        total = total + sizes[i];
        i = i + 1;
    }
    proof {
        assert(sizes@.subrange(0, n as int) =~= sizes@);
    }
    (total, n as u64)
}

/// Bytes rounded to whole kilobytes, halves rounding up: what the clean
/// operation prints beside the byte count.
pub fn kilobytes_rounded(bytes: u64) -> (kb: u64)
    requires
        bytes <= u64::MAX - 512,
    ensures
        kb == (bytes + 512) / 1024,
{
    (bytes + 512) / 1024
}

} // verus!
