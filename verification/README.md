# pcl_rtf

Converts the PCL output of a dot-matrix printer driver into an RTF document.

- `src/pcl.rs`: the parser from bytes to commands, specified by `next_at`.
- `src/rtf.rs`: the layout state machine (`step`, `run`, `rtf_of`), the RTF
  writer (`rtf_text`), and `convert_pcl`, which parses and lays out together
  (`convert_of`).
- `src/font.rs`: the character tables that printed bytes are read in.
- `src/text.rs`: decimal and hexadecimal numerals.
- `app/main.rs`: the command line tool (standard input to standard output).
