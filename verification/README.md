# evbunpack_core

Reads the virtual file system of executables packed by Enigma Virtual Box, and restores
the original PE image of such an executable. The library is written in Verus: every
function in `src/` carries a contract that Verus proves.

- `src/evb.rs`: the on-disk records (node headers, file records) and the node types.
- `src/vfs.rs`: finding the packed data, detecting the modern or legacy layout, walking
  the node tree into an insertion-ordered map from paths to nodes, looking paths up.
- `src/vfs/compressed.rs`: the chunk layout of compressed files and the size checks that
  follow their decompression.
- `src/pe.rs`, `src/pe/layout.rs`: the PE header fields, the packer's `.enigma1` header,
  the analysis of the packed image and the in-place restoration.
- `src/outside.rs`: the contracts assumed of `encoding_rs`, `indexmap` and `pelite`.
- `app/`: `Display`/`Error` versions of the error types, and the aPLib decompression of
  compressed files (behind the `aplib` feature, as that crate is optional).
