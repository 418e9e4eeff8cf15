# ai_os

A thin hypervisor for the Raspberry Pi 3 and 4. The kernel stays at EL2, loads Linux
from the SD card, starts it as a guest at EL1 on core 1, and takes key strokes from it
through shared memory. A small shell runs on the serial line and on the display.

- `src/` is the library, verified with Verus: the SD card and FAT32 drivers, the page
  tables, the device tree, the consoles, the boot and the shell, with the order in
  which each of them has things done. It never touches the hardware: a driver is a
  value that says which access it wants next and is told what came back.
  `src/session.rs` explains how such a conversation is specified.
- `tests/` runs the library against small models of the hardware.
- `app/` is the kernel itself: the entry code in assembly, the register and memory
  accesses that the library asks for, and the loops that hand the replies back.

## What is proved

Each driver's contract names a script: the accesses it makes, in order, for every reply
of the hardware. On top of the scripts the modules prove laws about whole
conversations, among them:

- `volume`: a file on a FAT32 volume is read back byte for byte; a missing file, an
  unmounted volume and a broken cluster chain are reported.
- `linux_vm`: the page tables map 4 GB one to one; the guest can read a protected
  framebuffer and not write it, and memory outside its 2 MB blocks stays as it was.
- `terminal`, `hv_console`: what was written can be read off the display.
- `emmc`: no command goes out before the bus is powered; a block has 512 bytes, and
  reading one ends.
- `device_tree`: the `chosen` node is set, and every other node and property of the
  tree stays as it was.
- `kernel`: the guest is started only after all of its files were loaded, and after
  the fault console's framebuffer was protected.
- `trampoline`: core 1 is released only after its code was written.
- `cat`: a file is shown between its heading and its closing line.
