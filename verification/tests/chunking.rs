use semble::chunking::{chunk_lines, chunk_source, merge_adjacent_chunks, ChunkBoundary};

#[test]
fn test_rust_tree_sitter_chunking_small() {
    let source = r#"
use std::collections::HashMap;

fn foo() {
    println!("foo");
}

struct MyStruct {
    field: i32,
}
"#;
    let chunks = chunk_source(source, "test.rs", Some("rust"));
    assert!(!chunks.is_empty());
    let all_content: String = chunks.iter().map(|c| c.content.as_str()).collect();
    assert!(all_content.contains("fn foo"));
    assert!(all_content.contains("struct MyStruct"));
    assert!(all_content.contains("use std::collections"));
}

#[test]
fn test_rust_tree_sitter_splits_large() {
    let long_body = "    let x = 1;\n".repeat(100);
    let source = format!(
        "fn foo() {{\n{long_body}}}\n\nfn bar() {{\n{long_body}}}\n\nfn baz() {{\n{long_body}}}\n"
    );
    let chunks = chunk_source(&source, "test.rs", Some("rust"));
    assert!(
        chunks.len() >= 2,
        "large source should split: got {} chunks",
        chunks.len()
    );
}

#[test]
fn test_python_tree_sitter_chunking() {
    let long_body = "    x = 1\n".repeat(100);
    let source =
        format!("import os\n\nclass MyClass:\n{long_body}\ndef standalone():\n{long_body}\n");
    let chunks = chunk_source(&source, "test.py", Some("python"));
    assert!(
        chunks.len() >= 2,
        "large python source should split: got {} chunks",
        chunks.len()
    );
    let all_content: String = chunks.iter().map(|c| c.content.as_str()).collect();
    assert!(all_content.contains("class MyClass"));
    assert!(all_content.contains("def standalone"));
}

#[test]
fn test_fallback_for_unknown_language() {
    let source = "line1\nline2\nline3\n";
    let chunks = chunk_source(source, "test.xyz", None);
    assert!(!chunks.is_empty());
}

#[test]
fn test_javascript_tree_sitter_chunking() {
    let source = r#"
const x = require('something');

function hello() {
    console.log("hello");
}

class Greeter {
    greet() {
        return "hi";
    }
}
"#;
    let chunks = chunk_source(source, "test.js", Some("javascript"));
    assert!(!chunks.is_empty());
    let all_content: String = chunks.iter().map(|c| c.content.as_str()).collect();
    assert!(all_content.contains("function hello"));
    assert!(all_content.contains("class Greeter"));
}

#[test]
fn test_go_tree_sitter_chunking() {
    let source = r#"
package main

import "fmt"

func main() {
    fmt.Println("hello")
}

func helper() int {
    return 42
}
"#;
    let chunks = chunk_source(source, "test.go", Some("go"));
    assert!(!chunks.is_empty());
    let all_content: String = chunks.iter().map(|c| c.content.as_str()).collect();
    assert!(all_content.contains("func main"));
    assert!(all_content.contains("func helper"));
}

#[test]
fn test_kotlin_tree_sitter_chunking_small() {
    let source = r#"
package com.example

import kotlin.collections.List

class Foo {
    fun bar() = 42
}

object Singleton {
    val x: Int = 1
}

fun topLevel(): String = "hi"

typealias Name = String
"#;
    let chunks = chunk_source(source, "Foo.kt", Some("kotlin"));
    assert!(!chunks.is_empty());
    let all_content: String = chunks.iter().map(|c| c.content.as_str()).collect();
    assert!(all_content.contains("class Foo"));
    assert!(all_content.contains("object Singleton"));
    assert!(all_content.contains("fun topLevel"));
    assert!(all_content.contains("typealias Name"));
}

#[test]
fn test_kotlin_tree_sitter_uses_definition_boundaries() {
    let body = "    val x = 1\n".repeat(80);
    let source =
        format!("class A {{\n{body}}}\n\nclass B {{\n{body}}}\n\nclass C {{\n{body}}}\n");
    let chunks = chunk_source(&source, "Big.kt", Some("kotlin"));
    assert!(
        chunks.len() >= 3,
        "large kotlin source should split by class: got {} chunks",
        chunks.len()
    );
    assert!(chunks[0].content.contains("class A"));
    assert!(
        !chunks[0].content.contains("class B"),
        "first chunk should end at the next top-level definition"
    );
    assert!(chunks[1].content.trim_start().starts_with("class B"));
}

#[test]
fn test_ruby_tree_sitter_chunking() {
    let source = r#"
class Greeter
  def initialize(name)
    @name = name
  end

  def hello
    "Hello, #{@name}!"
  end
end

module Utils
  def self.upcase(s)
    s.upcase
  end
end

def standalone
  42
end
"#;
    let chunks = chunk_source(source, "test.rb", Some("ruby"));
    assert!(!chunks.is_empty());
    let all_content: String = chunks.iter().map(|c| c.content.as_str()).collect();
    assert!(all_content.contains("class Greeter"));
    assert!(all_content.contains("module Utils"));
    assert!(all_content.contains("def standalone"));
}

#[test]
fn test_php_tree_sitter_chunking() {
    let source = r#"<?php
namespace App\Controller;

class UserController {
    public function index() {
        return 'list users';
    }

    public function show(int $id) {
        return "user $id";
    }
}

function helper() {
    return 1;
}
"#;
    let chunks = chunk_source(source, "test.php", Some("php"));
    assert!(!chunks.is_empty());
    let all_content: String = chunks.iter().map(|c| c.content.as_str()).collect();
    assert!(all_content.contains("class UserController"));
    assert!(all_content.contains("function helper"));
}

#[test]
fn test_swift_tree_sitter_chunking() {
    let source = r#"
import Foundation

struct User {
    let name: String
    let age: Int
}

class Greeter {
    func hello(to user: User) -> String {
        return "Hello, \(user.name)"
    }
}

func standalone() -> Int {
    return 42
}
"#;
    let chunks = chunk_source(source, "test.swift", Some("swift"));
    assert!(!chunks.is_empty());
    let all_content: String = chunks.iter().map(|c| c.content.as_str()).collect();
    assert!(all_content.contains("struct User"));
    assert!(all_content.contains("class Greeter"));
    assert!(all_content.contains("func standalone"));
}

#[test]
fn blank_source_has_no_chunks() {
    assert!(chunk_source("", "a.rs", Some("rust")).is_empty());
    assert!(chunk_source("  \n\t\n", "a.rs", None).is_empty());
}

#[test]
fn line_chunks_carry_lines_and_text() {
    let chunks = chunk_source("line1\nline2\nline3\n", "notes.txt", None);
    assert_eq!(chunks.len(), 1);
    assert_eq!(chunks[0].content, "line1\nline2\nline3\n");
    assert_eq!(chunks[0].start_line, 1);
    assert_eq!(chunks[0].end_line, 4);
    assert_eq!(chunks[0].file_path, "notes.txt");
    assert_eq!(chunks[0].language, None);
}

#[test]
fn chunks_cover_source_in_order() {
    let body = "    let v = 1;\n".repeat(120);
    let source = format!("fn a() {{\n{body}}}\nfn b() {{\n{body}}}\n");
    let chunks = chunk_source(&source, "x.rs", Some("rust"));
    let joined: String = chunks.iter().map(|c| c.content.as_str()).collect();
    assert_eq!(joined, source);
    assert_eq!(chunks[0].start_line, 1);
    assert_eq!(chunks[1].start_line, chunks[0].end_line);
}

#[test]
fn merge_joins_until_the_target_length() {
    let spans = vec![
        ChunkBoundary { start: 0, end: 4 },
        ChunkBoundary { start: 4, end: 8 },
        ChunkBoundary { start: 8, end: 12 },
    ];
    let merged = merge_adjacent_chunks(&spans, 8);
    let pairs: Vec<(usize, usize)> = merged.iter().map(|b| (b.start, b.end)).collect();
    assert_eq!(pairs, vec![(0, 8), (8, 12)]);
}

#[test]
fn chunk_lines_spans_lines_with_breaks() {
    let spans = chunk_lines("ab\ncd\nef", 3);
    let pairs: Vec<(usize, usize)> = spans.iter().map(|b| (b.start, b.end)).collect();
    assert_eq!(pairs, vec![(0, 3), (3, 6), (6, 8)]);
}

#[test]
fn line_chunks_rebuild_the_source_and_continue_lines() {
    let mut source = String::new();
    for i in 0..400 {
        source.push_str(&format!("line {i} with ünïcödé text\n"));
    }
    source.push_str("last line without break");
    let chunks = chunk_source(&source, "notes.txt", None);
    assert!(chunks.len() >= 2);
    let joined: String = chunks.iter().map(|c| c.content.as_str()).collect();
    assert_eq!(joined, source);
    assert_eq!(chunks[0].start_line, 1);
    for w in chunks.windows(2) {
        assert_eq!(w[1].start_line, w[0].end_line);
    }
}

#[test]
fn definition_chunks_put_back_together_are_the_file() {
    let mut source = String::from("use std::fmt;\n\n");
    for i in 0..60 {
        source.push_str(&format!("/// Doc {i} — ünïcode\nfn f{i}(x: u32) -> u32 {{\n    x + {i}\n}}\n\n"));
    }
    let chunks = chunk_source(&source, "big.rs", Some("rust"));
    assert!(chunks.len() > 1);
    let joined: String = chunks.iter().map(|c| c.content.as_str()).collect();
    assert_eq!(joined, source);
}
