# mempe

mempe rebuilds Windows executables and DLLs from the memory of a running process, as files that
regular PE tools can parse. It is meant for analysis: its output may need manual work before it can
run.

The library decides and computes, and Verus verifies all of it. The program around it reads the
target process, the disk and the console.

## Layout

- `src/pe/` parses captured images and rebuilds them: headers (`parse`, `merge`, `recover`,
  `headers`), sections (`layout`), data directories (`directories`), exports (`exports`, `symbols`),
  imports (`imports`, `import_section`), and the whole (`rebuild`). What a rebuilt file keeps of
  its image is proved in `fidelity`, which files can be parsed in `acceptance`, and what holds of
  recovered imports in `recovered`.
- `src/memory.rs` plans what is read of a process, and tells when its memory has settled.
- `src/process.rs` chooses the target, and watches for a new one.
- `src/dump.rs` takes all captured images through the rebuilding, and sums up what was done.
- `src/output.rs` names the files. `src/path.rs` and `src/text.rs` hold what that takes.
- `src/cli.rs` reads the command line, `src/report.rs` says what is shown and how the program ends.
- `app/` is the program: calls into Windows, files, and the console.

## What is not proved

Two outside functions decide something: `pelite` accepts or refuses a rebuilt file, by conditions
on its headers that are stated, and the allocator may have no room for it. Both answers are handled
as they come. The rest of what is taken on trust are three functions of the standard library on
characters and text. Each has a comment that says what is claimed of it.
