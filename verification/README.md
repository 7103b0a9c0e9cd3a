# ipts

Touch processing for Intel Precise Touch & Stylus (IPTS) devices, with its
logic verified by Verus.

- `src/` is the verified library: the touch tracker (`pointers`), the report
  frames sent over TCP (`tcp`, `pointers::network`), the datagram transport of
  the QUIC programs (`datagram`, `session`, `mux`) and their shared settings
  (`quic`), the device protocol state
  (`ipts`, `header`, `singletouch`), the uinput command plan (`mtinput`), the
  touch detection of the AVX-512 engine (`segment`), the host side of the GPU
  engine (`engine`), the heatmap window and its picture (`heatmap`), the cursor
  instances of the live view (`cursors`), the debug dump format (`dump`), and the checks on the configuration and PEM files (`config`, `pem`).
- `app/` holds the programs around it: device files and ioctls, the uinput
  device, the QUIC/TCP endpoints and TLS settings, the floating-point scaling of
  touch positions and the command-line tools.
- `tests/` runs the library on concrete values.
