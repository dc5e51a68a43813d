# rodent_logger

Reads player-versus-player events of Black Desert Online out of captured network traffic,
exports them as a table, and makes kill and death statistics of such tables. The logic is
a library that is verified with Verus; a small program around it does the input and output.

## Layout

`src/` is the library.

- `search`, `text`, `utf16`, `address`, `rank`: searching, texts and numbers, UTF-16,
  addresses, sorting.
- `names`: names in packets, null-terminated UTF-16 in fields of 62 bytes.
- `marker`: the guild marker of an event packet and the kill/death flag beside it.
- `format`: where the fields of an event packet lie, and lists of such formats.
- `frame`: captured frames and the TCP segments in them.
- `stream`: TCP streams put together and cut into packets; `reassembly` proves that what
  was sent comes out, however it was cut and whatever was sent twice.
- `kinds`, `opcode`: packets by opcode and length.
- `detect`, `calibrate`, `refresh`: how a format is found and kept up to date.
- `export`, `records`: events, and the table they are exported to.
- `stats`, `report`: counts, rankings, and the report on a table; `reordering` proves that
  the order of rows does not matter.
- `capture`, `analyze`, `dump`, `prompt`, `home`: the decisions of the other commands.

`app/` is the program: the command line, the files, the capture device and the window.

`tests/` runs the library on concrete values.

## What is taken on trust

Each function that hands work to another crate or to the standard library says in its
comment what it takes for granted: the headers of a frame (`etherparse`), how a record of a
table is written and read (`csv`), and what Unicode says of characters outside ASCII.

## Commands

```text
rodent_logger list
rodent_logger capture <INTERFACE> [-o FILE] [-f FILTER]
rodent_logger detect -i FILE [-n NAME]
rodent_logger calibrate -i FILE (--interactive | names and event)
rodent_logger export-csv -i FILE [-o FILE]
rodent_logger stats -i FILE
rodent_logger find-opcode -i FILE -n NAME
rodent_logger dump-strings -i FILE [-o OPCODE -p LENGTH] [--all]
rodent_logger analyze -i FILE
```

An exported table has the columns `Timestamp,Event,Guild,Player 1,Player 2`, where a player
is a family name with the character's name in brackets.
