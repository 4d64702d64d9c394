//! Musepack stream coding: the bit-level layers of the SV7 and SV8 formats,
//! with every reader, writer and decision stated as a contract and proved.

pub mod bit_laws;
pub mod bit_reader;
pub mod bit_writer;
pub mod bits;
pub mod cns;
pub mod coding;
pub mod combinadic;
pub mod error;
pub mod framing;
pub mod header_laws;
pub mod packet_bits;
pub mod packets;
pub mod phased;
pub mod progress;
pub mod scaling_laws;
pub mod stream_headers;
pub mod sv7_band_decode;
pub mod sv7_band_header;
pub mod sv7_frame_encode;
pub mod sv7_frame_laws;
pub mod sv7_huffman;
pub mod sv7_reconstruct;
pub mod sv7_scf_decode;
pub mod sv7_scf_encode;
pub mod sv7_stereo_frame;
pub mod sv7_stereo_frame_encode;
pub mod sv7_stream;
pub mod sv7_stream_laws;
pub mod sv7_tables;
pub mod sv7_word_swap;
pub mod sv8;
pub mod sv8_band_decode;
pub mod sv8_band_header;
pub mod sv8_code_laws;
pub mod sv8_context;
pub mod sv8_crc;
pub mod sv8_decode;
pub mod sv8_dscf_loop;
pub mod sv8_file_encode;
pub mod sv8_frame_build;
pub mod sv8_frame_decode;
pub mod sv8_frame_laws;
pub mod sv8_huffman;
pub mod sv8_huffman_encode;
pub mod sv8_level_laws;
pub mod sv8_noise_laws;
pub mod sv8_packet_laws;
pub mod sv8_quantize;
pub mod sv8_reconstruct;
pub mod sv8_rule_laws;
pub mod sv8_sample_decode;
pub mod sv8_sample_encode;
pub mod sv8_sample_laws;
pub mod sv8_scf_header;
pub mod sv8_seek;
pub mod sv8_seek_code_laws;
pub mod sv8_seek_index;
pub mod sv8_seek_laws;
pub mod sv8_stereo_frame;
pub mod sv8_stereo_frame_encode;
pub mod sv8_stereo_frame_laws;
pub mod sv8_stream;
pub mod sv8_stream_laws;
pub mod sv8_table_checks;
pub mod sv8_walk_laws;
pub mod writer_laws;
