use molasses::shader::{assemble_shader, directive_paths_present, shader_lines, ShaderLine};

fn text_of(line: &ShaderLine) -> Option<&[u8]> {
    match line {
        ShaderLine::Text(t) => Some(t.as_slice()),
        ShaderLine::Directive(_) => None,
    }
}

fn path_of(line: &ShaderLine) -> Option<&[u8]> {
    match line {
        ShaderLine::Directive(p) => Some(p.as_slice()),
        ShaderLine::Text(_) => None,
    }
}

#[test]
fn lines_split_at_line_feeds_and_drop_carriage_returns() {
    let lines = shader_lines(b"a\r\nb\n\nc");
    assert_eq!(lines.len(), 4);
    assert_eq!(text_of(&lines[0]), Some(&b"a"[..]));
    assert_eq!(text_of(&lines[1]), Some(&b"b"[..]));
    assert_eq!(text_of(&lines[2]), Some(&b""[..]));
    assert_eq!(text_of(&lines[3]), Some(&b"c"[..]));
}

#[test]
fn lone_carriage_returns_stay() {
    let lines = shader_lines(b"a\rb\nc\r");
    assert_eq!(lines.len(), 2);
    assert_eq!(text_of(&lines[0]), Some(&b"a\rb"[..]));
    assert_eq!(text_of(&lines[1]), Some(&b"c\r"[..]));
}

#[test]
fn empty_source_has_no_lines() {
    assert_eq!(shader_lines(b"").len(), 0);
    let lines = shader_lines(b"\n");
    assert_eq!(lines.len(), 1);
    assert_eq!(text_of(&lines[0]), Some(&b""[..]));
}

#[test]
fn directive_path_follows_first_space() {
    let lines = shader_lines(b"#include shaders/common.wgsl\n  #include x.wgsl\n#includefoo bar baz\n");
    assert_eq!(lines.len(), 3);
    assert_eq!(path_of(&lines[0]), Some(&b"shaders/common.wgsl"[..]));
    assert_eq!(text_of(&lines[1]), Some(&b"  #include x.wgsl"[..]));
    assert_eq!(path_of(&lines[2]), Some(&b"bar baz"[..]));
}

#[test]
fn directive_without_path_is_detected() {
    assert!(!directive_paths_present(b"fn main() {}\n#include\n"));
    assert!(!directive_paths_present(b"#include_all"));
    assert!(directive_paths_present(b"#include a.wgsl\nfn f() {}\n"));
    assert!(directive_paths_present(b"no directives here\n"));
    assert!(directive_paths_present(b""));
}

#[test]
fn assembly_wraps_named_files_in_markers() {
    let lines = shader_lines(b"#include common.wgsl\r\nfn main() {}");
    let bodies = vec![b"const A: f32 = 1.0;\n".to_vec(), Vec::new()];
    let text = assemble_shader(&lines, &bodies);
    assert_eq!(
        text,
        b"\n// INCLUDE START\nconst A: f32 = 1.0;\n\n// INCLUDE END\nfn main() {}\n".to_vec()
    );
}

#[test]
fn assembly_of_plain_text_ends_every_line() {
    let lines = shader_lines(b"a\r\nb");
    let bodies = vec![Vec::new(), Vec::new()];
    assert_eq!(assemble_shader(&lines, &bodies), b"a\nb\n".to_vec());
}

#[test]
fn plain_source_comes_out_unchanged() {
    let src = b"fn main() {\n    let a = 1;\n}\n\n";
    let lines = shader_lines(src);
    let bodies = vec![Vec::new(); lines.len()];
    assert_eq!(assemble_shader(&lines, &bodies), src.to_vec());
}
