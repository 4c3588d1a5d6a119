# Plank

Generate a Dockerfile easily from many packages.

Plank finds the packages of a monorepo by their `package.xml` files and writes a
Dockerfile with one build layer and one run-time layer per package. What many
packages depend on is installed once, in two base layers. A layer comes after
those that it copies from.

## Usage

    plank --base-image ros:jazzy --default-resolver "apt update && apt install {}" --build-command "colcon build"

In commands `{}` stands for arguments; `\{}` and `#{}` stand for the braces
themselves. With `--package regex:command` the dependencies whose whole name the
regular expression matches have a command of their own, and with a blank command
they are not resolved. Where several match, the last one counts.

## Layout

- `src/` is the library. Its behaviour is stated in contracts and proved with
  Verus.
  - `text`, `names`: text as a sequence of characters, ordered sets and maps of
    names
  - `template`, `patterns`, `arguments`, `paths`: commands with placeholders,
    patterns of dependencies, arguments of the form `regex:command`, where packages
    and files are
  - `layers`, `plan`: packages and layers, and what each layer installs and copies
  - `popularity`: how often a dependency is asked for
  - `graph`: the order of the layers
  - `planner`, `config`, `dockerfile`: the plan, the top layer of the last run, and
    the text of the Dockerfile
- `app/` is the program: arguments, files and messages.
- `tests/` runs the library on examples.

Functions named `law_...` state what holds of the library as a whole.

The crates `regex-lite`, `petgraph` and `camino` are called behind small functions
whose contracts are taken on trust; each says what it claims of the crate. Two items
of the standard library are taken on trust as well: `String::push`, and the debug
form of a string.
