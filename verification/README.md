# rslidar

Decoding, segmentation and mapping for a 32-channel spinning LiDAR, with the
rules verified by Verus.

* `src/` is the library. It reads the sensor's measurement and status packets,
  splits them into revolutions, keeps a range graph of each revolution, cuts its
  rings into segments and floods these into clusters, encodes and decodes the
  published clouds, and keeps a costmap with inflated obstacles. Configuration,
  capture playback, pairing of clouds and images, and the bring-up of the
  costmap node are state machines and parsers of the library too.
* `app/` holds the programs: the sensor node, the viewer, the costmap node and
  the driver that brings it up. Sockets, files, windows, message types and
  floating-point arithmetic are here.
* `tests/` runs the library on concrete values.

The library holds no floating-point numbers. A single-precision number is its
32-bit pattern, a double-precision one its 64-bit pattern; `single` and `double`
order them as the numbers are ordered. What has to be computed in floating point
is computed by the programs and handed over as a measure: `Measured` for the
channels of a packet, `SplitMeasure`, `SegmentMeans` and `LinkMeasure` for the segmentation,
`Sighting` and `Ring` for the costmap.

Captures are read with the `pcap-file` crate. The two functions of `capture`
that call it are the only ones whose contracts are not proved.
