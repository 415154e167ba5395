# designer1_tools

Tools for Husqvarna/Viking Designer 1 embroidery media, written in Verus:
Ink/Stitch designs become `.SHV` design files, a folder of designs becomes a
single-menu disk (`MENU_SEL.PHV`, `MENU_01/MENU_01.MHV`, `DES01_nn.SHV`), and
disk folders become 1.44 MB FAT12 floppy images in the slots of a Gotek USB
bank.

## Layout

```text
src/                 the verified library
  model.rs           designs, stitch commands, statistics
  inkstitch.rs       assembling a design from an Ink/Stitch export's parts
  text.rs            character-level helpers (trimming, case, hex colors)
  stream.rs          SHV stitch records: splitting, encoding, decoding
  shv.rs             the SHV writer
  readback.rs        the SHV reader and validator
  roundtrip.rs       what a written SHV file reads back as
  raster.rs          pixel buffers, lines, rotation, 4bpp packing
  preview.rs         SHV preview bitmaps and drawn paths
  disk.rs            MHV menu and PHV root menu files
  order.rs           the order design files fill a menu in
  fat.rs             FAT12 floppy images
  gotek.rs           Gotek slot banks and workspace rules
tests/               tests of the library
app/                 the command-line tools: file and device I/O, JSON,
                     floating-point coordinate handling, report printing
```

`designer1 <command>` converts, inspects and exports designs;
`designer1 gotek <command>` manages a Gotek workspace and slot bank.

## What is proved

Verus verifies every function in `src/`; each public one states its
result in a contract. Among the properties stated there:

- a written SHV file validates, and reads back the name, colors, stitch
  records and positions it was written from (`roundtrip.rs`);
- the stitch points read back from a written file are the design's path:
  each jump target, each stitch target after its split points, and the
  jump home;
- long stitches are split into legal records that add up to the stitch,
  as few as any split into legal records can be;
- the name read back from a written file is the cleaned ASCII name it
  was written under;
- a written command parses back to itself;
- packing an unchanged slot again reports it unchanged, and verifying a
  slot against identical bytes reports ok with equal digests;
- a built FAT12 image is a valid 1.44 MB floppy with both FATs equal, keeps
  its volume label, and its root directory lists the root-level entries it
  was built from, each name reading back upper-cased;
- menu (MHV) and root menu (PHV) files follow their documented offsets
  whatever they hold;
- a packed 4bpp bitmap gives back each pixel's value;
- an 8.3 name written to a directory entry reads back upper-cased;
- a recorded hash reads back as itself;
- a disk image's top-level entries come sorted by lowercased name, names
  that tie kept in the order they came, and are the same entries;
- slot verification reports and Gotek device candidates come in ascending
  slot and device-name order.
