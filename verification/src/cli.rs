//! Pieces of the `mkext4-rs` command-line tool that are plain values:
//! its error type, its usage text, and the parsing of its options.

use vstd::prelude::*;
use vstd::utf8::encode_utf8;
use crate::dir_entry::{DirEntry, SpecDirEntry};
use crate::mkfs::{default_label, Config, INODES_PER_GROUP};

verus! {

/// An error of the command-line tool: the message it reports.
#[derive(Debug)]
pub struct CliError(pub String);

/// The usage text of the `mkext4-rs` tool.
pub const USAGE: &'static str = "mkext4-rs \u{2014} pure-Rust ext4 image tool\n\nUsage:\n  mkext4-rs format <path> [--size-blocks N] [--block-size N] [--label TEXT]\n  mkext4-rs inspect <path>\n  mkext4-rs touch <image> <vfs-path> <content>\n  mkext4-rs cat <image> <vfs-path>\n  mkext4-rs build-from-tree <host-dir> <image> [--size-blocks N] [--inodes N] [--label TEXT]\n";

/// The tool's usage text, for the caller to print.
pub fn print_usage() -> (r: String)
    ensures
        r@ == USAGE@,
{
    USAGE.to_owned()
}

/// True iff `c` is an ASCII decimal digit.
pub open spec fn is_digit(c: char) -> bool {
    '0' <= c <= '9'
}

/// The value of the decimal digits `s`.
pub open spec fn decimal_value(s: Seq<char>) -> int
    decreases s.len(),
{
    if s.len() == 0 {
        0
    } else {
        decimal_value(s.drop_last()) * 10 + (s.last() as int - '0' as int)
    }
}

/// What `u32::from_str` makes of `s`: an optional `+`, then one or more
/// decimal digits whose value fits 32 bits; nothing else parses.
pub open spec fn u32_from_str(s: Seq<char>) -> Option<u32> {
    let digits = if s.len() > 0 && s[0] == '+' {
        s.drop_first()
    } else {
        s
    };
    if digits.len() > 0 && (forall|i: int| 0 <= i < digits.len() ==> is_digit(#[trigger] digits[i]))
        && decimal_value(digits) <= u32::MAX {
        Some(decimal_value(digits) as u32)
    } else {
        None
    }
}

/// The message of the error `u32::from_str` gives for `s`.
pub uninterp spec fn parse_u32_error_text(s: Seq<char>) -> Seq<char>;

/// Parse a decimal `u32` with `u32::from_str`; on failure, the error's
/// message. Trusted: `u32::from_str` accepts exactly an optional `+`
/// followed by decimal digits whose value fits 32 bits, and its error
/// message depends only on the text.
#[verifier::external_body]
fn parse_u32(s: &str) -> (r: Result<u32, String>)
    ensures
        match r {
            Ok(v) => u32_from_str(s@) == Some(v),
            Err(m) => u32_from_str(s@) is None && m@ == parse_u32_error_text(s@),
        },
{
    match s.parse::<u32>() {
        Ok(v) => Ok(v),
        Err(e) => Err(format!("{e}")),
    }
}

/// `a` followed by `b`.
fn join(a: &str, b: &str) -> (r: String)
    ensures
        r@ == a@ + b@,
{
    a.to_owned().concat(b)
}

/// The texts of a list of arguments.
pub open spec fn texts(args: Seq<String>) -> Seq<Seq<char>> {
    args.map_values(|s: String| s@)
}

/// What parsing the `format` options in `args` from index `i` on gives,
/// starting from block size `bs`, size `sz` and label `label`: the
/// resulting values, or the message of the first error.
pub open spec fn format_flags(args: Seq<Seq<char>>, i: int, bs: u32, sz: u32, label: Seq<u8>) -> Result<
    (u32, u32, Seq<u8>),
    Seq<char>,
>
    decreases args.len() - i,
{
    if i < 0 || i >= args.len() {
        Ok((bs, sz, label))
    } else if args[i] == "--size-blocks"@ {
        if i + 1 >= args.len() {
            Err("--size-blocks requires a value"@)
        } else {
            match u32_from_str(args[i + 1]) {
                Some(v) => format_flags(args, i + 2, bs, v, label),
                None => Err("--size-blocks parse: "@ + parse_u32_error_text(args[i + 1])),
            }
        }
    } else if args[i] == "--block-size"@ {
        if i + 1 >= args.len() {
            Err("--block-size requires a value"@)
        } else {
            match u32_from_str(args[i + 1]) {
                Some(v) => format_flags(args, i + 2, v, sz, label),
                None => Err("--block-size parse: "@ + parse_u32_error_text(args[i + 1])),
            }
        }
    } else if args[i] == "--label"@ {
        if i + 1 >= args.len() {
            Err("--label requires a value"@)
        } else {
            format_flags(args, i + 2, bs, sz, encode_utf8(args[i + 1]))
        }
    } else {
        Err("unknown flag: "@ + args[i])
    }
}

/// The arguments of `format`: where to write the image, and how to lay
/// it out.
#[derive(Debug)]
pub struct FormatArgs {
    pub host_path: String,
    pub config: Config,
}

/// Parse the arguments of `format`: a host path, then any of
/// `--size-blocks N`, `--block-size N`, `--label TEXT` over the default
/// configuration.
pub fn parse_format_args(args: &[String]) -> (r: Result<FormatArgs, CliError>)
    ensures
        match r {
            Ok(fa) => {
                &&& args@.len() >= 1
                &&& fa.host_path@ == args@[0]@
                &&& format_flags(texts(args@), 1, 4096, 16, default_label()) == Ok::<
                    (u32, u32, Seq<u8>),
                    Seq<char>,
                >((fa.config.block_size, fa.config.size_blocks, fa.config.volume_label@))
            },
            Err(e) => if args@.len() == 0 {
                e.0@ == "format requires a host path argument"@
            } else {
                format_flags(texts(args@), 1, 4096, 16, default_label()) == Err::<
                    (u32, u32, Seq<u8>),
                    Seq<char>,
                >(e.0@)
            },
        },
{
    if args.len() == 0 {
        return Err(CliError("format requires a host path argument".to_owned()));
    }
    let host_path = args[0].clone();
    let mut config = Config::default();
    let ghost a = texts(args@);
    let size_flag = "--size-blocks".to_owned();
    let block_flag = "--block-size".to_owned();
    let label_flag = "--label".to_owned();
    let mut i: usize = 1;
    while i < args.len()
        invariant
            1 <= i,
            a == texts(args@),
            size_flag@ == "--size-blocks"@,
            block_flag@ == "--block-size"@,
            label_flag@ == "--label"@,
            format_flags(a, 1, 4096, 16, default_label()) == format_flags(
                a,
                i as int,
                config.block_size,
                config.size_blocks,
                config.volume_label@,
            ),
        decreases args.len() - i,
    {
        assert(a[i as int] == args@[i as int]@);
        if args[i] == size_flag {
            if i + 1 >= args.len() {
                return Err(CliError("--size-blocks requires a value".to_owned()));
            }
            assert(a[i + 1] == args@[i + 1]@);
            match parse_u32(args[i + 1].as_str()) {
                Ok(v) => config.size_blocks = v,
                Err(m) => return Err(CliError(join("--size-blocks parse: ", m.as_str()))),
            }
            i = i + 2;
        } else if args[i] == block_flag {
            if i + 1 >= args.len() {
                return Err(CliError("--block-size requires a value".to_owned()));
            }
            assert(a[i + 1] == args@[i + 1]@);
            match parse_u32(args[i + 1].as_str()) {
                Ok(v) => config.block_size = v,
                Err(m) => return Err(CliError(join("--block-size parse: ", m.as_str()))),
            }
            i = i + 2;
        } else if args[i] == label_flag {
            if i + 1 >= args.len() {
                return Err(CliError("--label requires a value".to_owned()));
            }
            assert(a[i + 1] == args@[i + 1]@);
            config.volume_label = vstd::slice::slice_to_vec(args[i + 1].as_str().as_bytes());
            i = i + 2;
        } else {
            return Err(CliError(join("unknown flag: ", args[i].as_str())));
        }
    }
    Ok(FormatArgs { host_path, config })
}

/// What parsing the `build-from-tree` options in `args` from index `i`
/// on gives, starting from size `sz`, inode count `inodes` and label
/// `label`: the resulting values, or the message of the first error.
pub open spec fn build_flags(args: Seq<Seq<char>>, i: int, sz: u32, inodes: u32, label: Seq<u8>) -> Result<
    (u32, u32, Seq<u8>),
    Seq<char>,
>
    decreases args.len() - i,
{
    if i < 0 || i >= args.len() {
        Ok((sz, inodes, label))
    } else if args[i] == "--size-blocks"@ {
        if i + 1 >= args.len() {
            Err("--size-blocks requires a value"@)
        } else {
            match u32_from_str(args[i + 1]) {
                Some(v) => build_flags(args, i + 2, v, inodes, label),
                None => Err("--size-blocks parse: "@ + parse_u32_error_text(args[i + 1])),
            }
        }
    } else if args[i] == "--inodes"@ {
        if i + 1 >= args.len() {
            Err("--inodes requires a value"@)
        } else {
            match u32_from_str(args[i + 1]) {
                Some(v) => build_flags(args, i + 2, sz, v, label),
                None => Err("--inodes parse: "@ + parse_u32_error_text(args[i + 1])),
            }
        }
    } else if args[i] == "--label"@ {
        if i + 1 >= args.len() {
            Err("--label requires a value"@)
        } else {
            build_flags(args, i + 2, sz, inodes, encode_utf8(args[i + 1]))
        }
    } else {
        Err("unknown flag: "@ + args[i])
    }
}

/// The arguments of `build-from-tree`: the host directory to copy, the
/// image to write, its layout, and the inode count asked for.
#[derive(Debug)]
pub struct BuildArgs {
    pub host_dir: String,
    pub image_path: String,
    pub config: Config,
    pub inodes: u32,
}

/// Parse the arguments of `build-from-tree`: a host directory and an
/// image path, then any of `--size-blocks N`, `--inodes N`,
/// `--label TEXT` over the default configuration.
pub fn parse_build_args(args: &[String]) -> (r: Result<BuildArgs, CliError>)
    ensures
        match r {
            Ok(ba) => {
                &&& args@.len() >= 2
                &&& ba.host_dir@ == args@[0]@
                &&& ba.image_path@ == args@[1]@
                &&& ba.config.block_size == 4096
                &&& build_flags(texts(args@), 2, 16, INODES_PER_GROUP, default_label()) == Ok::<
                    (u32, u32, Seq<u8>),
                    Seq<char>,
                >((ba.config.size_blocks, ba.inodes, ba.config.volume_label@))
            },
            Err(e) => if args@.len() < 2 {
                e.0@ == "build-from-tree requires <host-dir> <image> [--size-blocks N] [--inodes N] [--label TEXT]"@
            } else {
                build_flags(texts(args@), 2, 16, INODES_PER_GROUP, default_label()) == Err::<
                    (u32, u32, Seq<u8>),
                    Seq<char>,
                >(e.0@)
            },
        },
{
    if args.len() < 2 {
        return Err(
            CliError(
                "build-from-tree requires <host-dir> <image> [--size-blocks N] [--inodes N] [--label TEXT]".to_owned(),
            ),
        );
    }
    let host_dir = args[0].clone();
    let image_path = args[1].clone();
    let mut config = Config::default();
    let mut inodes = INODES_PER_GROUP;
    let ghost a = texts(args@);
    let size_flag = "--size-blocks".to_owned();
    let inodes_flag = "--inodes".to_owned();
    let label_flag = "--label".to_owned();
    let mut i: usize = 2;
    while i < args.len()
        invariant
            2 <= i,
            a == texts(args@),
            config.block_size == 4096,
            size_flag@ == "--size-blocks"@,
            inodes_flag@ == "--inodes"@,
            label_flag@ == "--label"@,
            build_flags(a, 2, 16, INODES_PER_GROUP, default_label()) == build_flags(
                a,
                i as int,
                config.size_blocks,
                inodes,
                config.volume_label@,
            ),
        decreases args.len() - i,
    {
        assert(a[i as int] == args@[i as int]@);
        if args[i] == size_flag {
            if i + 1 >= args.len() {
                return Err(CliError("--size-blocks requires a value".to_owned()));
            }
            assert(a[i + 1] == args@[i + 1]@);
            match parse_u32(args[i + 1].as_str()) {
                Ok(v) => config.size_blocks = v,
                Err(m) => return Err(CliError(join("--size-blocks parse: ", m.as_str()))),
            }
            i = i + 2;
        } else if args[i] == inodes_flag {
            if i + 1 >= args.len() {
                return Err(CliError("--inodes requires a value".to_owned()));
            }
            assert(a[i + 1] == args@[i + 1]@);
            match parse_u32(args[i + 1].as_str()) {
                Ok(v) => inodes = v,
                Err(m) => return Err(CliError(join("--inodes parse: ", m.as_str()))),
            }
            i = i + 2;
        } else if args[i] == label_flag {
            if i + 1 >= args.len() {
                return Err(CliError("--label requires a value".to_owned()));
            }
            assert(a[i + 1] == args@[i + 1]@);
            config.volume_label = vstd::slice::slice_to_vec(args[i + 1].as_str().as_bytes());
            i = i + 2;
        } else {
            return Err(CliError(join("unknown flag: ", args[i].as_str())));
        }
    }
    Ok(BuildArgs { host_dir, image_path, config, inodes })
}

/// How many of the entries `es` are live (name an inode).
pub open spec fn live_count(es: Seq<SpecDirEntry>) -> nat
    decreases es.len(),
{
    if es.len() == 0 {
        0
    } else {
        live_count(es.drop_last()) + if es.last().inode != 0 {
            1nat
        } else {
            0nat
        }
    }
}

/// Counting live entries adds up over a listing: the count of two lists
/// one after the other is the sum of their counts, and one entry counts
/// one exactly when its inode is not zero.
pub proof fn lemma_live_count_adds(a: Seq<SpecDirEntry>, b: Seq<SpecDirEntry>, e: SpecDirEntry)
    ensures
        live_count(a + b) == live_count(a) + live_count(b),
        live_count(seq![e]) == if e.inode != 0 {
            1nat
        } else {
            0nat
        },
        live_count(Seq::empty()) == 0,
    decreases b.len(),
{
    assert(seq![e].drop_last() =~= Seq::<SpecDirEntry>::empty());
    assert(live_count(seq![e].drop_last()) == 0);
    assert(seq![e].last() == e);
    if b.len() == 0 {
        assert(a + b =~= a);
    } else {
        lemma_live_count_adds(a, b.drop_last(), e);
        assert((a + b).drop_last() =~= a + b.drop_last());
        assert((a + b).last() == b.last());
    }
}

/// The number of live entries of a directory listing, as `inspect`
/// reports it.
pub fn count_live(entries: &[DirEntry]) -> (r: usize)
    ensures
        r == live_count(entries@.map_values(|e: DirEntry| e@)),
{
    let ghost es = entries@.map_values(|e: DirEntry| e@);
    let mut n: usize = 0;
    let mut i: usize = 0;
    while i < entries.len()
        invariant
            i <= entries@.len(),
            es == entries@.map_values(|e: DirEntry| e@),
            n == live_count(es.take(i as int)),
            n <= i,
        decreases entries@.len() - i,
    {
        assert(es.take(i + 1).drop_last() =~= es.take(i as int));
        if !entries[i].is_unused() {
            n = n + 1;
        }
        i = i + 1;
    }
    assert(es.take(i as int) =~= es);
    n
}

/// The kind of an entry of the host directory tree.
#[derive(Debug, Clone, Copy, PartialEq, Eq, Structural)]
pub enum HostKind {
    /// A directory.
    Directory,
    /// A regular file.
    RegularFile,
    /// Anything else: a link, a device, a socket.
    Other,
}

/// What building an image from a host tree does with one host entry.
#[derive(Debug)]
pub enum TreeAction {
    /// Make the directory at this path of the image, then walk the host
    /// directory into it.
    MakeDir(String),
    /// Create a regular file at this path of the image holding the host
    /// file's bytes.
    CreateFile(String),
    /// Leave out the entry that would be at this path: its type is not
    /// supported.
    Skip(String),
}

/// The path inside the image of the entry `name` of the directory at
/// `dir` (the empty text for the root).
pub open spec fn image_child_path(dir: Seq<char>, name: Seq<char>) -> Seq<char> {
    dir + seq!['/'] + name
}

/// What to do with the host entry `name`, of kind `kind`, found in the
/// host directory that is `dir` inside the image: directories are made
/// and walked, regular files created, everything else skipped.
pub fn tree_step(dir: &str, name: &str, kind: HostKind) -> (a: TreeAction)
    ensures
        match kind {
            HostKind::Directory => a matches TreeAction::MakeDir(p) && p@ == image_child_path(
                dir@,
                name@,
            ),
            HostKind::RegularFile => a matches TreeAction::CreateFile(p) && p@ == image_child_path(
                dir@,
                name@,
            ),
            HostKind::Other => a matches TreeAction::Skip(p) && p@ == image_child_path(dir@, name@),
        },
{
    let with_slash = join(dir, "/");
    proof {
        reveal_strlit("/");
    }
    let child = join(with_slash.as_str(), name);
    match kind {
        HostKind::Directory => TreeAction::MakeDir(child),
        HostKind::RegularFile => TreeAction::CreateFile(child),
        HostKind::Other => TreeAction::Skip(child),
    }
}

/// The value that the last pair `flag value` of the option list `args`,
/// read in pairs from index `i`, gives `flag`, if any pair does.
pub open spec fn last_flag_value(args: Seq<Seq<char>>, i: int, flag: Seq<char>) -> Option<Seq<char>>
    decreases args.len() - i,
{
    if i < 0 || i + 1 >= args.len() {
        None
    } else {
        match last_flag_value(args, i + 2, flag) {
            Some(v) => Some(v),
            None => if args[i] == flag {
                Some(args[i + 1])
            } else {
                None
            },
        }
    }
}

/// The option list `args`, from index `i`, is a list of pairs each of
/// which is one of `flags` followed by a value, the values of the numeric
/// ones (all but `--label`) being decimal numbers that fit 32 bits.
pub open spec fn flag_pairs(args: Seq<Seq<char>>, i: int, a: Seq<char>, b: Seq<char>) -> bool
    decreases args.len() - i,
{
    if i < 0 || i >= args.len() {
        true
    } else {
        &&& i + 1 < args.len()
        &&& (args[i] == a || args[i] == b || args[i] == "--label"@)
        &&& args[i] != "--label"@ ==> u32_from_str(args[i + 1]) is Some
        &&& flag_pairs(args, i + 2, a, b)
    }
}

/// The number a numeric option ends with: what its last pair gives, or
/// `default` when no pair names it.
pub open spec fn numeric_option(args: Seq<Seq<char>>, i: int, flag: Seq<char>, default: u32) -> Option<u32> {
    match last_flag_value(args, i, flag) {
        Some(v) => u32_from_str(v),
        None => Some(default),
    }
}

/// The label the options end with: the bytes of the value of the last
/// `--label` pair, or `default` when there is none.
pub open spec fn label_option(args: Seq<Seq<char>>, i: int, default: Seq<u8>) -> Seq<u8> {
    match last_flag_value(args, i, "--label"@) {
        Some(v) => encode_utf8(v),
        None => default,
    }
}

/// Parsing `format`'s options does not depend on their order: when it
/// succeeds, the block size, the size and the label are each what the
/// last pair naming that option gives, wherever it stands, or what they
/// started as; and a list made only of such pairs with well-formed
/// numbers always parses.
pub proof fn lemma_format_flags_order_free(args: Seq<Seq<char>>, i: int, bs: u32, sz: u32, label: Seq<u8>)
    requires
        i >= 0,
    ensures
        format_flags(args, i, bs, sz, label) matches Ok((b, z, l)) ==> {
            &&& numeric_option(args, i, "--block-size"@, bs) == Some(b)
            &&& numeric_option(args, i, "--size-blocks"@, sz) == Some(z)
            &&& l == label_option(args, i, label)
        },
        flag_pairs(args, i, "--size-blocks"@, "--block-size"@) ==> format_flags(args, i, bs, sz, label) is Ok,
    decreases args.len() - i,
{
    if i < args.len() && i + 1 < args.len() {
        let a = args[i];
        let v = args[i + 1];
        if a == "--size-blocks"@ {
            if let Some(x) = u32_from_str(v) {
                lemma_format_flags_order_free(args, i + 2, bs, x, label);
            }
        } else if a == "--block-size"@ {
            if let Some(x) = u32_from_str(v) {
                lemma_format_flags_order_free(args, i + 2, x, sz, label);
            }
        } else if a == "--label"@ {
            lemma_format_flags_order_free(args, i + 2, bs, sz, encode_utf8(v));
        }
        lemma_distinct_flags();
    } else if i < args.len() {
        lemma_distinct_flags();
    }
}

/// Parsing `build-from-tree`'s options does not depend on their order:
/// when it succeeds, the size, the inode count and the label are each
/// what the last pair naming that option gives, wherever it stands, or
/// what they started as; and a list made only of such pairs with
/// well-formed numbers always parses.
pub proof fn lemma_build_flags_order_free(args: Seq<Seq<char>>, i: int, sz: u32, inodes: u32, label: Seq<u8>)
    requires
        i >= 0,
    ensures
        build_flags(args, i, sz, inodes, label) matches Ok((z, n, l)) ==> {
            &&& numeric_option(args, i, "--size-blocks"@, sz) == Some(z)
            &&& numeric_option(args, i, "--inodes"@, inodes) == Some(n)
            &&& l == label_option(args, i, label)
        },
        flag_pairs(args, i, "--size-blocks"@, "--inodes"@) ==> build_flags(args, i, sz, inodes, label) is Ok,
    decreases args.len() - i,
{
    if i < args.len() && i + 1 < args.len() {
        let a = args[i];
        let v = args[i + 1];
        if a == "--size-blocks"@ {
            if let Some(x) = u32_from_str(v) {
                lemma_build_flags_order_free(args, i + 2, x, inodes, label);
            }
        } else if a == "--inodes"@ {
            if let Some(x) = u32_from_str(v) {
                lemma_build_flags_order_free(args, i + 2, sz, x, label);
            }
        } else if a == "--label"@ {
            lemma_build_flags_order_free(args, i + 2, sz, inodes, encode_utf8(v));
        }
        lemma_distinct_flags();
    } else if i < args.len() {
        lemma_distinct_flags();
    }
}

/// The option names are different texts.
proof fn lemma_distinct_flags()
    ensures
        "--size-blocks"@ != "--block-size"@,
        "--size-blocks"@ != "--label"@,
        "--block-size"@ != "--label"@,
        "--size-blocks"@ != "--inodes"@,
        "--inodes"@ != "--label"@,
{
    reveal_strlit("--size-blocks");
    reveal_strlit("--block-size");
    reveal_strlit("--label");
    reveal_strlit("--inodes");
    assert("--size-blocks"@[2] != "--block-size"@[2]);
    assert("--size-blocks"@[2] != "--label"@[2]);
    assert("--block-size"@[2] != "--label"@[2]);
    assert("--size-blocks"@[2] != "--inodes"@[2]);
    assert("--inodes"@[2] != "--label"@[2]);
}

} // verus!
