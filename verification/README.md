# why

A Linux program troubleshooter. It reads the ELF metadata of a program, walks
the graph of the libraries that it needs the way the dynamic loader would, and
says in plain language why the program does not start.

The library under `src/` is written in [Verus](https://github.com/verus-lang/verus):
every function states what it returns, and the statements are proved.

```text
src/
  elf/          bounds-checked ELF reader: headers, .dynamic, .dynsym, versions
  resolve.rs    where a DT_NEEDED name is looked for, and what is taken
  conf.rs       the directories that ld.so.conf configures
  analyze/
    target.rs   what a target is, by its content
    script.rs   shebang lines and the command behind `env`
    host.rs     architecture, permissions, interpreter, environment
    walk.rs     the breadth-first walk of the DT_NEEDED graph
    link.rs     unresolved symbols and missing symbol versions
  report.rs     the human-readable report
  distro.rs     package-manager hints
  cli.rs        the command line
  text.rs, path.rs, order.rs, table.rs
app/            the program: files, directories, variables, `ldconfig -p`
tests/          tests on a machine made of plain values
```

Nothing in the library touches the file system. The walk and the reading of
`ld.so.conf` ask for what they have to know next, and the program answers.

Exit status: `0` no problem was found in the ELF metadata, `1` a problem was
found, `2` the file could not be diagnosed.

Not proved, but taken from the documentation of the standard library: that
`String::push` appends, and what `String::from_utf8_lossy` and
`std::str::from_utf8` make of bytes (see `src/text.rs`).
