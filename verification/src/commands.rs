//! The compiler and linker command lines, object and hash file names, and
//! the compilation database entries.

use vstd::prelude::*;
use crate::config::Package;
use crate::text::{
    contains_text, dots_to_underscores, prefixed, replace_dots, string_views, text_contains,
    text_equal,
};
use crate::unit::TranslationUnit;

verus! {

/// Each item with `prefix` in front, as for `-I`, `-L` and `-l` options.
pub open spec fn with_prefix(prefix: Seq<char>, items: Seq<Seq<char>>) -> Seq<Seq<char>> {
    items.map_values(|d: Seq<char>| prefix + d)
}

/// Whether a unit is compiled as a module interface: it exports a module, or
/// its file extension is `cppm`.
pub open spec fn is_interface_unit(unit: TranslationUnit, extension: Option<Seq<char>>) -> bool {
    unit.exported_module is Some || extension == Some("cppm"@)
}

/// The module options: Clang (any compiler whose name contains `clang`) reads
/// prebuilt modules from the working directory and, for an interface unit,
/// emits the module interface; other compilers get `-fmodules-ts`.
pub open spec fn module_flags(compiler: Seq<char>, interface: bool) -> Seq<Seq<char>> {
    if contains_text(compiler, "clang"@) {
        if interface {
            seq!["-fprebuilt-module-path=."@, "-Xclang"@, "-emit-module-interface"@]
        } else {
            seq!["-fprebuilt-module-path=."@]
        }
    } else {
        seq!["-fmodules-ts"@]
    }
}

/// The compiler's arguments for one unit: the standard, `-c`, the flags, an
/// `-I` per include directory, the module options, the source, `-o` and the object.
pub open spec fn compile_args(
    pkg: Package,
    include_dirs: Seq<Seq<char>>,
    interface: bool,
    file: Seq<char>,
    output: Seq<char>,
) -> Seq<Seq<char>> {
    seq![pkg.standard@, "-c"@] + string_views(pkg.flags@) + with_prefix("-I"@, include_dirs)
        + module_flags(pkg.compiler@, interface) + seq![file, "-o"@, output]
}

/// The linker's arguments for one binary: the standard, the flags, the
/// objects, `-o` and the output, an `-L` per library directory and an `-l` per library.
pub open spec fn link_args(pkg: Package, objects: Seq<Seq<char>>, output: Seq<char>) -> Seq<Seq<char>> {
    seq![pkg.standard@] + string_views(pkg.flags@) + objects + seq!["-o"@, output]
        + with_prefix("-L"@, string_views(pkg.lib_dirs@)) + with_prefix("-l"@, string_views(pkg.libs@))
}

/// The object file of a unit: its file stem with dots made underscores, an
/// underscore, the first eight characters of its deep hash, and `.o`.
pub open spec fn object_name_text(stem: Seq<char>, deep_hash: Seq<char>) -> Seq<char> {
    dots_to_underscores(stem) + "_"@ + deep_hash.take(8) + ".o"@
}

/// The file that records the deep hash a unit was last compiled with.
pub open spec fn hash_file_text(stem: Seq<char>) -> Seq<char> {
    dots_to_underscores(stem) + ".hash"@
}

/// The module options depend only on whether the compiler is Clang: any
/// other compiler gets exactly `-fmodules-ts`, interface or not; Clang always
/// gets the prebuilt module path, and for an interface unit also the two
/// options that make it emit the module interface.
pub proof fn lemma_module_flags_by_compiler(compiler: Seq<char>, interface: bool)
    ensures
        !contains_text(compiler, "clang"@) ==> module_flags(compiler, interface) == seq!["-fmodules-ts"@],
        contains_text(compiler, "clang"@) && interface ==> module_flags(compiler, interface)
            == seq!["-fprebuilt-module-path=."@, "-Xclang"@, "-emit-module-interface"@],
        contains_text(compiler, "clang"@) && !interface ==> module_flags(compiler, interface)
            == seq!["-fprebuilt-module-path=."@],
{
}

/// The compiler's arguments, position by position: the standard, `-c`, each
/// flag, one `-I` argument per include directory in order, the module options
/// (`-fmodules-ts` for a compiler that is not Clang; for Clang the prebuilt
/// module path and, for an interface unit, `-Xclang -emit-module-interface`),
/// then the source file, `-o` and the object file.
pub proof fn lemma_compile_args_layout(
    pkg: Package,
    include_dirs: Seq<Seq<char>>,
    interface: bool,
    file: Seq<char>,
    output: Seq<char>,
)
    ensures
        ({
            let a = compile_args(pkg, include_dirs, interface, file, output);
            let f = pkg.flags@.len() as int;
            let d = include_dirs.len() as int;
            let clang = contains_text(pkg.compiler@, "clang"@);
            let m: int = if clang && interface { 3 } else { 1 };
            &&& a.len() == 2 + f + d + m + 3
            &&& a[0] == pkg.standard@
            &&& a[1] == "-c"@
            &&& forall|i: int| 0 <= i < f ==> a[2 + i] == (#[trigger] pkg.flags@[i])@
            &&& forall|k: int| 0 <= k < d ==> a[2 + f + k] == "-I"@ + #[trigger] include_dirs[k]
            &&& !clang ==> a[2 + f + d] == "-fmodules-ts"@
            &&& clang ==> a[2 + f + d] == "-fprebuilt-module-path=."@
            &&& clang && interface ==> a[3 + f + d] == "-Xclang"@ && a[4 + f + d] == "-emit-module-interface"@
            &&& a[2 + f + d + m] == file
            &&& a[3 + f + d + m] == "-o"@
            &&& a[4 + f + d + m] == output
        }),
{
    let a = compile_args(pkg, include_dirs, interface, file, output);
    let head = seq![pkg.standard@, "-c"@];
    let fl = string_views(pkg.flags@);
    let inc = with_prefix("-I"@, include_dirs);
    let mf = module_flags(pkg.compiler@, interface);
    let tail = seq![file, "-o"@, output];
    let f = pkg.flags@.len() as int;
    let d = include_dirs.len() as int;
    lemma_module_flags_by_compiler(pkg.compiler@, interface);
    assert(a == head + fl + inc + mf + tail);
    let m = mf.len() as int;
    assert forall|i: int| 0 <= i < f implies a[2 + i] == (#[trigger] pkg.flags@[i])@ by {
        assert((head + fl)[2 + i] == fl[i]);
    }
    assert forall|k: int| 0 <= k < d implies a[2 + f + k] == "-I"@ + #[trigger] include_dirs[k] by {
        assert((head + fl + inc)[2 + f + k] == inc[k]);
    }
    assert((head + fl + inc + mf)[2 + f + d] == mf[0]);
    if m == 3 {
        assert((head + fl + inc + mf)[3 + f + d] == mf[1]);
        assert((head + fl + inc + mf)[4 + f + d] == mf[2]);
    }
    assert(a[2 + f + d + m] == tail[0]);
    assert(a[3 + f + d + m] == tail[1]);
    assert(a[4 + f + d + m] == tail[2]);
}

/// The linker's arguments, position by position: the standard, each flag,
/// each object, `-o`, the output, one `-L` argument per library directory in
/// order, and one `-l` argument per library in order.
pub proof fn lemma_link_args_layout(pkg: Package, objects: Seq<Seq<char>>, output: Seq<char>)
    ensures
        ({
            let a = link_args(pkg, objects, output);
            let f = pkg.flags@.len() as int;
            let o = objects.len() as int;
            let l = pkg.lib_dirs@.len() as int;
            &&& a.len() == 1 + f + o + 2 + l + pkg.libs@.len()
            &&& a[0] == pkg.standard@
            &&& forall|i: int| 0 <= i < f ==> a[1 + i] == (#[trigger] pkg.flags@[i])@
            &&& forall|i: int| 0 <= i < o ==> a[1 + f + i] == #[trigger] objects[i]
            &&& a[1 + f + o] == "-o"@
            &&& a[2 + f + o] == output
            &&& forall|k: int| 0 <= k < l ==> a[3 + f + o + k] == "-L"@ + (#[trigger] pkg.lib_dirs@[k])@
            &&& forall|k: int| 0 <= k < pkg.libs@.len() ==> a[3 + f + o + l + k] == "-l"@ + (#[trigger] pkg.libs@[k])@
        }),
{
    let a = link_args(pkg, objects, output);
    let head = seq![pkg.standard@];
    let fl = string_views(pkg.flags@);
    let mid = seq!["-o"@, output];
    let ld = with_prefix("-L"@, string_views(pkg.lib_dirs@));
    let lb = with_prefix("-l"@, string_views(pkg.libs@));
    let f = pkg.flags@.len() as int;
    let o = objects.len() as int;
    let l = pkg.lib_dirs@.len() as int;
    assert(a == head + fl + objects + mid + ld + lb);
    assert forall|i: int| 0 <= i < f implies a[1 + i] == (#[trigger] pkg.flags@[i])@ by {
        assert((head + fl)[1 + i] == fl[i]);
    }
    assert forall|i: int| 0 <= i < o implies a[1 + f + i] == #[trigger] objects[i] by {
        assert((head + fl + objects)[1 + f + i] == objects[i]);
    }
    assert((head + fl + objects + mid)[1 + f + o] == mid[0]);
    assert((head + fl + objects + mid)[2 + f + o] == mid[1]);
    assert forall|k: int| 0 <= k < l implies a[3 + f + o + k] == "-L"@ + (#[trigger] pkg.lib_dirs@[k])@ by {
        assert((head + fl + objects + mid + ld)[3 + f + o + k] == ld[k]);
    }
    assert forall|k: int| 0 <= k < pkg.libs@.len() implies a[3 + f + o + l + k] == "-l"@ + (#[trigger] pkg.libs@[k])@ by {
        assert(a[3 + f + o + l + k] == lb[k]);
    }
}

/// One entry of `compile_commands.json`.
pub struct CompileCommand {
    pub directory: String,
    pub arguments: Vec<String>,
    pub file: String,
    pub output: String,
}

fn push_text(args: &mut Vec<String>, s: &str)
    ensures
        string_views(final(args)@) == string_views(old(args)@).push(s@),
{
    args.push(String::from_str(s));
    assert(string_views(args@) =~= string_views(old(args)@).push(s@));
}

fn push_all(args: &mut Vec<String>, items: &Vec<String>)
    ensures
        string_views(final(args)@) == string_views(old(args)@) + string_views(items@),
{
    let mut i: usize = 0;
    while i < items.len()
        invariant
            0 <= i <= items@.len(),
            string_views(args@) == string_views(old(args)@) + string_views(items@).take(i as int),
        decreases items@.len() - i,
    {
        push_text(args, items[i].as_str());
        i += 1;
        assert(string_views(args@) =~= string_views(old(args)@) + string_views(items@).take(i as int));
    }
    assert(string_views(items@).take(items@.len() as int) =~= string_views(items@));
}

fn push_all_prefixed(args: &mut Vec<String>, prefix: &str, items: &Vec<String>)
    ensures
        string_views(final(args)@) == string_views(old(args)@) + with_prefix(prefix@, string_views(items@)),
{
    let mut i: usize = 0;
    while i < items.len()
        invariant
            0 <= i <= items@.len(),
            string_views(args@) == string_views(old(args)@) + with_prefix(prefix@, string_views(items@)).take(i as int),
        decreases items@.len() - i,
    {
        let item = prefixed(prefix, items[i].as_str());
        let ghost before = args@;
        args.push(item);
        assert(string_views(args@) =~= string_views(before).push(prefix@ + items@[i as int]@));
        assert(with_prefix(prefix@, string_views(items@))[i as int] == prefix@ + items@[i as int]@);
        assert(with_prefix(prefix@, string_views(items@)).take(i + 1) =~= with_prefix(prefix@, string_views(items@)).take(i as int).push(prefix@ + items@[i as int]@));
        i += 1;
        assert(string_views(args@) =~= string_views(old(args)@) + with_prefix(prefix@, string_views(items@)).take(i as int));
    }
    assert(with_prefix(prefix@, string_views(items@)).take(items@.len() as int) =~= with_prefix(prefix@, string_views(items@)));
}

/// Whether `unit` is compiled as a module interface, given its file extension.
pub fn interface_unit(unit: &TranslationUnit, extension: Option<&str>) -> (r: bool)
    ensures
        r == is_interface_unit(*unit, match extension { Some(e) => Some(e@), None => None }),
{
    if unit.exported_module.is_some() {
        return true;
    }
    match extension {
        Some(e) => text_equal(e, "cppm"),
        None => false,
    }
}

fn push_module_flags(args: &mut Vec<String>, compiler: &str, interface: bool)
    ensures
        string_views(final(args)@) == string_views(old(args)@) + module_flags(compiler@, interface),
{
    if text_contains(compiler, "clang") {
        push_text(args, "-fprebuilt-module-path=.");
        if interface {
            push_text(args, "-Xclang");
            push_text(args, "-emit-module-interface");
        }
    } else {
        push_text(args, "-fmodules-ts");
    }
    assert(string_views(args@) =~= string_views(old(args)@) + module_flags(compiler@, interface));
}

fn push_compile_args(
    args: &mut Vec<String>,
    pkg: &Package,
    include_dirs: &Vec<String>,
    interface: bool,
    file: &str,
    output: &str,
)
    ensures
        string_views(final(args)@) == string_views(old(args)@) + compile_args(
            *pkg,
            string_views(include_dirs@),
            interface,
            file@,
            output@,
        ),
{
    push_text(args, pkg.standard.as_str());
    push_text(args, "-c");
    push_all(args, &pkg.flags);
    push_all_prefixed(args, "-I", include_dirs);
    push_module_flags(args, pkg.compiler.as_str(), interface);
    push_text(args, file);
    push_text(args, "-o");
    push_text(args, output);
    assert(string_views(args@) =~= string_views(old(args)@) + compile_args(
        *pkg,
        string_views(include_dirs@),
        interface,
        file@,
        output@,
    ));
}

/// The arguments to pass to `pkg.compiler` to compile `file` into `output`.
pub fn compiler_arguments(pkg: &Package, interface: bool, file: &str, output: &str) -> (args: Vec<String>)
    ensures
        string_views(args@) == compile_args(*pkg, string_views(pkg.include_dirs@), interface, file@, output@),
{
    let mut args: Vec<String> = Vec::new();
    push_compile_args(&mut args, pkg, &pkg.include_dirs, interface, file, output);
    assert(string_views(args@) =~= compile_args(*pkg, string_views(pkg.include_dirs@), interface, file@, output@));
    args
}

/// The arguments to pass to `pkg.compiler` to link `objects` into `output`.
pub fn link_arguments(pkg: &Package, objects: &Vec<String>, output: &str) -> (args: Vec<String>)
    ensures
        string_views(args@) == link_args(*pkg, string_views(objects@), output@),
{
    let mut args: Vec<String> = Vec::new();
    push_text(&mut args, pkg.standard.as_str());
    push_all(&mut args, &pkg.flags);
    push_all(&mut args, objects);
    push_text(&mut args, "-o");
    push_text(&mut args, output);
    push_all_prefixed(&mut args, "-L", &pkg.lib_dirs);
    push_all_prefixed(&mut args, "-l", &pkg.libs);
    assert(string_views(args@) =~= link_args(*pkg, string_views(objects@), output@));
    args
}

/// The `compile_commands.json` entry for one unit: run from `directory`, the
/// compiler followed by its arguments with the absolute include directories,
/// source and object.
pub fn compdb_entry(
    directory: &str,
    pkg: &Package,
    abs_include_dirs: &Vec<String>,
    interface: bool,
    abs_file: &str,
    abs_output: &str,
) -> (c: CompileCommand)
    ensures
        c.directory@ == directory@,
        string_views(c.arguments@) == seq![pkg.compiler@] + compile_args(
            *pkg,
            string_views(abs_include_dirs@),
            interface,
            abs_file@,
            abs_output@,
        ),
        c.file@ == abs_file@,
        c.output@ == abs_output@,
{
    let mut args: Vec<String> = Vec::new();
    push_text(&mut args, pkg.compiler.as_str());
    push_compile_args(&mut args, pkg, abs_include_dirs, interface, abs_file, abs_output);
    CompileCommand {
        directory: String::from_str(directory),
        arguments: args,
        file: String::from_str(abs_file),
        output: String::from_str(abs_output),
    }
}

/// The object file name of a unit with file stem `stem` and deep hash `deep_hash`.
pub fn object_file_name(stem: &str, deep_hash: &str) -> (r: String)
    requires
        deep_hash@.len() >= 8,
        vstd::utf8::is_ascii_chars(deep_hash@),
    ensures
        r@ == object_name_text(stem@, deep_hash@),
{
    let mut r = replace_dots(stem);
    r.append("_");
    r.append(deep_hash.substring_ascii(0, 8));
    r.append(".o");
    assert(deep_hash@.subrange(0, 8) =~= deep_hash@.take(8));
    r
}

/// The name of the file that records the deep hash of the unit with file stem `stem`.
pub fn hash_file_name(stem: &str) -> (r: String)
    ensures
        r@ == hash_file_text(stem@),
{
    let mut r = replace_dots(stem);
    r.append(".hash");
    r
}

/// A unit need not be compiled again when the recorded hash equals its deep
/// hash and its object file exists.
pub fn is_cached(recorded: &Option<String>, deep_hash: &String, object_exists: bool) -> (r: bool)
    ensures
        r == (recorded matches Some(h) && h@ == deep_hash@ && object_exists),
{
    match recorded {
        Some(h) => *h == *deep_hash && object_exists,
        None => false,
    }
}

} // verus!
