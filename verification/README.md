# modloader

`modloader` links Linux kernel modules against the running kernel in user space and
loads them. The undefined symbols of a module are looked up in `/proc/kallsyms` and
become absolute ones in its symbol table; the module is then handed to the kernel. If
the kernel rejects it for its vermagic, the module gets the vermagic that the kernel
asks for in its log, and is handed over once more.

    modloader path/to/module.ko [params]

A dash in place of the path reads the module from the standard input.

## Layout

`src/` is a library that is verified with Verus: everything that the program decides
and computes.

| Module | What it holds |
| :--- | :--- |
| `cli` | the command line, and what the program says of the outcome |
| `elf` | what is read of a module, and how a symbol table entry is stored |
| `error` | how a load can fail, and the exit codes |
| `kallsyms` | the kernel's symbols, line by line |
| `kmsg` | the kernel log, and the vermagic that it asks for |
| `loader` | the course of a load, as steps between actions and events |
| `modinfo` | the entries of a `.modinfo` section |
| `symbols` | linking |
| `text` | splitting and searching |
| `vermagic` | giving a module another vermagic |
| `words` | words in either byte order, and alignment |

`app/` is the program around it: it opens and reads files, makes the system call, and
performs the actions that the library asks for.

ELF files are parsed by `goblin`, and symbol table entries are stored by `scroll`. What
is taken on trust of them, and of two functions of the standard library, stands above
the functions that call them.

## Exit codes

Code 3 is for a program that can ask a loaded KernelSU module for its version. This one
cannot: it asks for no version, and never ends with that code.

| Code | Meaning |
| :--- | :--- |
| 0 | the module was loaded |
| 1 | the program was not run as root |
| 2 | the command line is not valid |
| 3 | the version of the loaded KernelSU module could not be told |
| 4 | the process is not in a state to load modules |
| 8 | the module cannot be read |
| 12 | the module is no valid ELF file |
| 16 | the symbol table of the module cannot be patched |
| 20 | the kernel's symbols cannot be read or parsed |
| 24 | the kernel rejects the module |
| 28 | the vermagic of the module cannot be replaced |
