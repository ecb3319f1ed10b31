use crub_graper::commands::{
    compdb_entry, compiler_arguments, hash_file_name, interface_unit, is_cached, link_arguments,
    object_file_name,
};
use crub_graper::config::{BinTarget, Package};
use crub_graper::errors::BuildError;
use crub_graper::graph::ModuleGraph;
use crub_graper::plan::{first_match, link_objects, main_file_suffix, plan_link, select_target};
use crub_graper::scanner::{classify_line, ModuleLine};
use crub_graper::text::{replace_dots, text_contains, text_equal, trim_slashes_front};
use crub_graper::unit::TranslationUnit;

fn strings(v: &[&str]) -> Vec<String> {
    v.iter().map(|s| s.to_string()).collect()
}

fn package(compiler: &str) -> Package {
    Package {
        version: None,
        compiler: compiler.to_string(),
        standard: "-std=c++2b".to_string(),
        source_dir: "./src".to_string(),
        out_dir: "./build".to_string(),
        flags: strings(&["-O2", "-Wall"]),
        include_dirs: strings(&["include", "third_party"]),
        lib_dirs: strings(&["/usr/lib"]),
        libs: strings(&["m", "pthread"]),
    }
}

fn unit(exports: Option<&str>) -> TranslationUnit {
    TranslationUnit {
        path: "src/a.cppm".to_string(),
        exported_module: exports.map(|s| s.to_string()),
        imports: Vec::new(),
        base_hash: Vec::new(),
    }
}

#[test]
fn clang_compiles_interfaces_with_module_output() {
    let args = compiler_arguments(&package("clang++"), true, "src/a.cppm", "build/obj/a_12345678.o");
    assert_eq!(
        args,
        strings(&[
            "-std=c++2b", "-c", "-O2", "-Wall", "-Iinclude", "-Ithird_party",
            "-fprebuilt-module-path=.", "-Xclang", "-emit-module-interface",
            "src/a.cppm", "-o", "build/obj/a_12345678.o",
        ])
    );
}

#[test]
fn clang_compiles_plain_units_without_interface_output() {
    let args = compiler_arguments(&package("/usr/bin/clang++-18"), false, "main.cpp", "main.o");
    assert_eq!(
        args,
        strings(&["-std=c++2b", "-c", "-O2", "-Wall", "-Iinclude", "-Ithird_party", "-fprebuilt-module-path=.", "main.cpp", "-o", "main.o"])
    );
}

#[test]
fn other_compilers_get_modules_ts() {
    let args = compiler_arguments(&package("g++"), true, "a.cppm", "a.o");
    assert_eq!(
        args,
        strings(&["-std=c++2b", "-c", "-O2", "-Wall", "-Iinclude", "-Ithird_party", "-fmodules-ts", "a.cppm", "-o", "a.o"])
    );
}

#[test]
fn link_arguments_put_objects_then_output_then_libraries() {
    let args = link_arguments(&package("g++"), &strings(&["a.o", "b.o"]), "build/app");
    assert_eq!(
        args,
        strings(&["-std=c++2b", "-O2", "-Wall", "a.o", "b.o", "-o", "build/app", "-L/usr/lib", "-lm", "-lpthread"])
    );
}

#[test]
fn compdb_entries_lead_with_the_compiler() {
    let c = compdb_entry("/work", &package("clang++"), &strings(&["/work/include"]), false, "/work/m.cpp", "/work/build/obj/m_00000000.o");
    assert_eq!(c.directory, "/work");
    assert_eq!(c.file, "/work/m.cpp");
    assert_eq!(c.output, "/work/build/obj/m_00000000.o");
    assert_eq!(
        c.arguments,
        strings(&["clang++", "-std=c++2b", "-c", "-O2", "-Wall", "-I/work/include", "-fprebuilt-module-path=.", "/work/m.cpp", "-o", "/work/build/obj/m_00000000.o"])
    );
}

#[test]
fn interface_units_export_or_end_in_cppm() {
    assert!(interface_unit(&unit(Some("a")), Some("cpp")));
    assert!(interface_unit(&unit(None), Some("cppm")));
    assert!(!interface_unit(&unit(None), Some("cpp")));
    assert!(!interface_unit(&unit(None), None));
}

#[test]
fn object_and_hash_file_names() {
    assert_eq!(object_file_name("my.mod", "0123456789abcdef"), "my_mod_01234567.o");
    assert_eq!(hash_file_name("my.mod"), "my_mod.hash");
}

#[test]
fn cache_needs_equal_hash_and_existing_object() {
    let h = "abc".to_string();
    assert!(is_cached(&Some("abc".to_string()), &h, true));
    assert!(!is_cached(&Some("abc".to_string()), &h, false));
    assert!(!is_cached(&Some("abd".to_string()), &h, true));
    assert!(!is_cached(&None, &h, true));
}

#[test]
fn text_helpers() {
    assert!(text_contains("/usr/bin/clang++", "clang"));
    assert!(!text_contains("g++", "clang"));
    assert!(text_contains("abc", ""));
    assert!(text_equal("cppm", "cppm"));
    assert!(!text_equal("cpp", "cppm"));
    assert_eq!(replace_dots("a.b.c"), "a_b_c");
    assert_eq!(trim_slashes_front("//src/main.cpp"), "src/main.cpp");
    assert_eq!(trim_slashes_front("src/main.cpp"), "src/main.cpp");
}

#[test]
fn main_file_lookup() {
    let bin = BinTarget { name: "app".to_string(), path: "/src/main.cpp".to_string() };
    assert_eq!(main_file_suffix(&bin), "src/main.cpp");
    assert_eq!(first_match(&vec![false, true, true]), Some(1));
    assert_eq!(first_match(&vec![false, false]), None);
}

#[test]
fn target_selection() {
    let bins = vec![
        BinTarget { name: "app".to_string(), path: "/src/main.cpp".to_string() },
        BinTarget { name: "tool".to_string(), path: "/src/tool.cpp".to_string() },
    ];
    assert_eq!(select_target(&bins, None), Some(0));
    assert_eq!(select_target(&bins, Some("tool")), Some(1));
    assert_eq!(select_target(&bins, Some("nope")), None);
    assert_eq!(select_target(&Vec::new(), None), None);
}

#[test]
fn link_objects_follow_the_search_and_skip_missing() {
    let mk = |e: Option<&str>, i: &[&str]| TranslationUnit {
        path: "x".to_string(),
        exported_module: e.map(|s| s.to_string()),
        imports: strings(i),
        base_hash: Vec::new(),
    };
    let units = vec![mk(Some("a"), &[]), mk(Some("b"), &["a"]), mk(None, &["b"]), mk(None, &[])];
    let g = ModuleGraph::from_units(&units);
    let objs = vec![Some("a.o".to_string()), None, Some("main.o".to_string()), Some("x.o".to_string())];
    assert_eq!(link_objects(&g, 2, &objs), strings(&["main.o", "a.o"]));
}

#[test]
fn module_lines_are_recognised() {
    assert!(matches!(classify_line("export module math;"), ModuleLine::Export(n) if n == "math"));
    assert!(matches!(classify_line("  import  io ; \r"), ModuleLine::Import(n) if n == "io"));
    assert!(matches!(classify_line("import ;"), ModuleLine::Other));
    assert!(matches!(classify_line("int main() {}"), ModuleLine::Other));
    assert!(matches!(classify_line("export module a.b:part;"), ModuleLine::Export(n) if n == "a.b:part"));
}

#[test]
fn units_from_lines() {
    let lines = strings(&["module;", "export module geo;", "import math;", "import std;", "export int f();"]);
    let u = TranslationUnit::from_lines("src/geo.cppm".to_string(), &lines, vec![9]);
    assert_eq!(u.exported_module.as_deref(), Some("geo"));
    assert_eq!(u.imports, strings(&["math", "std"]));
    assert_eq!(u.base_hash, vec![9]);
    assert_eq!(u.path, "src/geo.cppm");
}

#[test]
fn error_messages() {
    assert_eq!(BuildError::ManifestNotFound.message(), "Configuration file (Crub.toml) not found.");
    assert_eq!(BuildError::ManifestInvalid("bad".to_string()).message(), "Failed to parse Crub.toml: bad");
    assert_eq!(BuildError::NoSources.message(), "No C++ source files found in the source directory.");
    assert_eq!(BuildError::CyclicDependency.message(), "🔄 Cyclic dependency detected in your C++ modules!");
    assert_eq!(BuildError::Deadlock.message(), "Deadlock detected during parallel compilation!");
    assert_eq!(
        BuildError::MainFileNotFound { path: "/src/main.cpp".to_string(), target: "app".to_string() }.message(),
        "Main file '/src/main.cpp' for target 'app' not found in source directory."
    );
    assert_eq!(BuildError::LinkFailed("app".to_string()).message(), "Failed to link target 'app'");
    assert_eq!(BuildError::CompilationAborted("a.cpp".to_string()).message(), "Compilation aborted for a.cpp");
    assert_eq!(BuildError::TaskPanicked("boom".to_string()).message(), "Task panicked: boom");
    assert_eq!(BuildError::CompilerSpawnFailed("x".to_string()).message(), "Failed to spawn compiler: x");
    assert_eq!(BuildError::ObjectDirFailed("x".to_string()).message(), "Failed to create obj dir: x");
    assert_eq!(BuildError::LinkerSpawnFailed("x".to_string()).message(), "x");
    assert_eq!(BuildError::CompdbSerializeFailed("x".to_string()).message(), "Failed to serialize compile_commands.json: x");
    assert_eq!(BuildError::CompdbWriteFailed("x".to_string()).message(), "Failed to write compile_commands.json: x");
}

#[test]
fn plan_link_finds_the_main_unit_or_fails() {
    let mk = |e: Option<&str>, i: &[&str]| TranslationUnit {
        path: "x".to_string(),
        exported_module: e.map(|s| s.to_string()),
        imports: strings(i),
        base_hash: Vec::new(),
    };
    let units = vec![mk(Some("a"), &[]), mk(None, &["a"])];
    let g = ModuleGraph::from_units(&units);
    let objs = vec![Some("a.o".to_string()), Some("m.o".to_string())];
    let bin = BinTarget { name: "app".to_string(), path: "/src/main.cpp".to_string() };
    let args = match plan_link(&package("g++"), &g, &bin, &vec![false, true], &objs, "build/app") {
        Ok(a) => a,
        Err(_) => panic!("main expected"),
    };
    assert_eq!(args, strings(&["-std=c++2b", "-O2", "-Wall", "m.o", "a.o", "-o", "build/app", "-L/usr/lib", "-lm", "-lpthread"]));
    match plan_link(&package("g++"), &g, &bin, &vec![false, false], &objs, "build/app") {
        Err(e) => assert_eq!(e.message(), "Main file '/src/main.cpp' for target 'app' not found in source directory."),
        Ok(_) => panic!("error expected"),
    }
}
