# TinyC

The middle of a compiler for a small typed language, and the lexer in front of
it, with every stage stated and proved in [Verus](https://github.com/verus-lang/verus).

| Stage | Module | What is proved of it |
|-------|--------|----------------------|
| lexing | `lexer`, `token`, `vocabulary` | the tokens and the diagnostics a text reads as, in source order |
| lowering | `ir::lower` | the control flow graph a checked tree becomes, or which frames are refused |
| dominance | `ir::ssa::dom`, `ir::ssa::order`, `ir::ssa::climb` | the dominator tree and the frontiers, and that the search for them ends |
| SSA construction | `ir::ssa::construct`, `ir::ssa::above` | one definition per register, where the parameters go, what each use is renamed to, and that every read is of what was written above it |
| optimisation | `opt` | what is known at each point, that it is true of every run, and that SSA form is kept |
| SSA destruction | `ir::ssa::destruct` | that copies in sequence do what they do at once, and that nothing is handed along an edge |
| coalescing | `ir::coalesce` | which copies go, and that only registers that are never live at once are joined |
| liveness | `ir::liveness` | the registers a path still reads |
| the dump | `ir::dump`, `decimal` | the text of a program, floats included |

What holds across the stages is stated over runs. `ir::run` says how a function
goes from step to step, `ir::deeds` what a run does seen from outside, and
`ir::halt` where it stops: at an operation whose answer does not exist or an index
out of range, and maybe at a conversion or in a routine. Going into
SSA form (`ir::ssa::meaning`), coming out of it (`ir::ssa::leaving`), sharing
registers (`ir::sharing`) and the passes (`opt::runs`, `opt::stops`) are each
proved to change neither, and `stages` puts that together for the whole pipeline.

That is said of functions that read nothing that was not written on every way there
(`reads_only_written`). `lower` promises it of every function of a program that is
`settled`: every arm of a valued `match` that is a block is left before its end, no
step of a loop declares anything, and no variable is read while it is being declared.

A tree is read out of the tokens and checked by whoever calls the library:
`ast` and `sema` say what it has to look like. `compile_with` takes it from
there to the IR a backend is handed. An `Observer` is shown each stage on the way,
in order and once, and nothing behind its answer to stop; it keeps a record of its
calls (`observe`), which the contract speaks of.

Floating point is done on the bits of a double, in whole numbers of any size
(`float`, `big`): an operation's answer is the double nearest to the exact one.

`app/` is the command line: it reads a file and prints its tokens, or its
mistakes with a line, a column and a caret.

`tests/` runs all of it, on programs written as source text.
